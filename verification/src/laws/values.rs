//! Laws of values and of what operators make of them.

use crate::eval::{
    apply_at, body_at, bound, computed, converted, find_func, has_text, merged, negated, Env,
    Outcome, ScopeView,
};
use crate::format::{bare, lemma_bare, request};
use crate::number::{magnitude, remainder, truncated};
use crate::parser::Operator;
use crate::session::{with_function, without};
use crate::syntax::{FuncView, TargetView, ValueView};
use crate::units::is_named;
use vstd::prelude::*;

verus! {

/// Whether the value is a number or a duration, whatever it is to be written like.
pub open spec fn is_quantity(v: ValueView) -> bool {
    bare(v) is Number || bare(v) is Duration
}

/// A conversion keeps the exact value.
pub proof fn law_conversion_keeps_value(v: ValueView, target: TargetView)
    ensures
        bare(converted(v, target)) == bare(v),
{
}

/// A conversion of a conversion is one conversion, to what the later asks for and, where it
/// leaves something open, to what the earlier asks for.
pub proof fn law_conversions_merge(v: ValueView, first: TargetView, second: TargetView)
    ensures
        converted(converted(v, first), second) == converted(v, merged(second, first)),
{
}

/// An outcome without what its value is to be written like.
pub open spec fn bare_outcome(outcome: Outcome) -> Outcome {
    match outcome {
        Some(Ok(v)) => Some(Ok(bare(v))),
        other => other,
    }
}

/// What quantities are to be written like does not matter to what is computed of them. A
/// number beside a duration is left out where the line has no unit to count it in: there a
/// duration that was converted to one unit counts as a number.
pub proof fn law_writing_does_not_matter(
    operator: Operator,
    x: ValueView,
    y: ValueView,
    scope: ScopeView,
)
    requires
        is_quantity(x),
        is_quantity(y),
        scope.inference is Some || (bare(x) is Number <==> bare(y) is Number),
    ensures
        bare_outcome(computed(operator, x, y, scope)) == bare_outcome(
            computed(operator, bare(x), bare(y), scope),
        ),
{
    reveal_with_fuel(bare, 2);
    lemma_bare(x);
    lemma_bare(y);
}

/// The order of the operands does not matter to sums and products of quantities.
pub proof fn law_plus_and_times_commute(x: ValueView, y: ValueView, scope: ScopeView)
    requires
        is_quantity(x),
        is_quantity(y),
    ensures
        bare_outcome(computed(Operator::Add, x, y, scope)) == bare_outcome(
            computed(Operator::Add, y, x, scope),
        ),
        bare_outcome(computed(Operator::Mul, x, y, scope)) == bare_outcome(
            computed(Operator::Mul, y, x, scope),
        ),
{
    reveal_with_fuel(bare, 2);
    match (bare(x), bare(y)) {
        (ValueView::Number(a), ValueView::Number(b)) => {
            assert(a * b == b * a) by (nonlinear_arith);
        },
        _ => {},
    }
}

/// Quantities side by side are added up where both are durations, and multiplied
/// otherwise.
pub proof fn law_side_by_side(
    limit: nat,
    x: ValueView,
    y: ValueView,
    env: Env,
    scope: ScopeView,
)
    requires
        is_quantity(x),
        is_quantity(y),
    ensures
        apply_at(limit, x, y, env, scope) == if bare(x) is Duration && bare(y) is Duration {
            computed(Operator::Add, x, y, scope)
        } else {
            computed(Operator::Mul, x, y, scope)
        },
{
    match (bare(x), bare(y)) {
        (ValueView::Duration(a), ValueView::Number(b)) => {
            assert(a * b == b * a) by (nonlinear_arith);
        },
        _ => {},
    }
}

/// Adding a quantity and taking it away again gives back a quantity of the same sort.
pub proof fn law_minus_undoes_plus(x: ValueView, y: ValueView, scope: ScopeView)
    requires
        is_quantity(x),
        is_quantity(y),
        bare(x) is Number <==> bare(y) is Number,
    ensures
        match computed(Operator::Add, x, y, scope) {
            Some(Ok(sum)) => match computed(Operator::Sub, sum, y, scope) {
                Some(Ok(v)) => bare(v) == bare(x),
                _ => false,
            },
            _ => false,
        },
{
    reveal_with_fuel(bare, 2);
}

/// A bare number beside a duration counts in the unit of the line: adding it, or taking it
/// away, is adding or taking away as many of those units.
pub proof fn law_number_counts_in_unit(
    d: ValueView,
    n: real,
    unit: real,
    operator: Operator,
    scope: ScopeView,
)
    requires
        bare(d) is Duration,
        operator is Add || operator is Sub || operator is Mod,
        scope.inference == Some(unit),
    ensures
        computed(operator, d, ValueView::Number(n), scope) == computed(
            operator,
            d,
            ValueView::Duration(n * unit),
            scope,
        ),
        computed(operator, ValueView::Number(n), d, scope) == computed(
            operator,
            ValueView::Duration(n * unit),
            d,
            scope,
        ),
{
}

/// Dividing by a number and multiplying by it again gives back the quantity.
pub proof fn law_times_undoes_division(x: ValueView, n: real, scope: ScopeView)
    requires
        is_quantity(x),
        n != 0real,
    ensures
        match computed(Operator::Div, x, ValueView::Number(n), scope) {
            Some(Ok(part)) => match computed(Operator::Mul, part, ValueView::Number(n), scope) {
                Some(Ok(v)) => bare(v) == bare(x),
                _ => false,
            },
            _ => false,
        },
{
    match bare(x) {
        ValueView::Number(a) => {
            lemma_divided(a, n);
        },
        ValueView::Duration(a) => {
            lemma_divided(a, n);
        },
        _ => {},
    }
}

/// Dividing and multiplying by the same number gives back the number.
proof fn lemma_divided(a: real, n: real)
    requires
        n != 0real,
    ensures
        (a / n) * n == a,
        n * (a / n) == a,
{
    assert((a / n) * n == a) by (nonlinear_arith)
        requires
            n != 0real,
    ;
    assert(n * (a / n) == a) by (nonlinear_arith)
        requires
            n != 0real,
    ;
}

/// Negating twice gives back the value.
pub proof fn law_negation_undoes_itself(v: ValueView)
    requires
        is_quantity(v),
    ensures
        match negated(v) {
            Ok(w) => match negated(w) {
                Ok(x) => bare(x) == bare(v) && request(x) == request(v),
                Err(e) => false,
            },
            Err(e) => false,
        },
{
    reveal_with_fuel(bare, 2);
}

/// The whole part and the rest of a quotient of the other sign.
proof fn lemma_truncated(x: real)
    ensures
        magnitude(truncated(x) as real) <= magnitude(x) < magnitude(truncated(x) as real) + 1real,
        x >= 0real ==> truncated(x) >= 0,
        x <= 0real ==> truncated(x) <= 0,
{
}

/// A remainder is what is left once the divisor is taken out a whole number of times: it is
/// smaller than the divisor, and has the sign of the dividend or is zero.
pub proof fn law_remainder(a: real, b: real)
    requires
        b != 0real,
    ensures
        a == b * (truncated(a / b) as real) + remainder(a, b),
        magnitude(remainder(a, b)) < magnitude(b),
        a >= 0real ==> remainder(a, b) >= 0real,
        a <= 0real ==> remainder(a, b) <= 0real,
{
    let q = a / b;
    let t = truncated(q) as real;
    lemma_truncated(q);
    lemma_divided(a, b);
    assert(b * q == a);
    let f = q - t;
    assert(remainder(a, b) == b * f) by (nonlinear_arith)
        requires
            remainder(a, b) == a - b * t,
            b * q == a,
            f == q - t,
    ;
    lemma_sign(a, b, q);
    assert(-1real < f < 1real);
    assert(q >= 0real ==> f >= 0real);
    assert(q <= 0real ==> f <= 0real);
    lemma_fraction(b, f);
}

/// The sign of a quotient.
proof fn lemma_sign(a: real, b: real, q: real)
    requires
        b != 0real,
        b * q == a,
    ensures
        b > 0real && a >= 0real ==> q >= 0real,
        b > 0real && a <= 0real ==> q <= 0real,
        b < 0real && a >= 0real ==> q <= 0real,
        b < 0real && a <= 0real ==> q >= 0real,
{
    assert(b > 0real && a >= 0real ==> q >= 0real) by (nonlinear_arith)
        requires
            b * q == a,
    ;
    assert(b > 0real && a <= 0real ==> q <= 0real) by (nonlinear_arith)
        requires
            b * q == a,
    ;
    assert(b < 0real && a >= 0real ==> q <= 0real) by (nonlinear_arith)
        requires
            b * q == a,
    ;
    assert(b < 0real && a <= 0real ==> q >= 0real) by (nonlinear_arith)
        requires
            b * q == a,
    ;
}

/// A fraction of a number is smaller than the number.
proof fn lemma_fraction(b: real, f: real)
    requires
        b != 0real,
        -1real < f < 1real,
    ensures
        magnitude(b * f) < magnitude(b),
        b > 0real && f >= 0real ==> b * f >= 0real,
        b > 0real && f <= 0real ==> b * f <= 0real,
        b < 0real && f >= 0real ==> b * f <= 0real,
        b < 0real && f <= 0real ==> b * f >= 0real,
{
    assert(b > 0real ==> -b < b * f < b) by (nonlinear_arith)
        requires
            -1real < f < 1real,
    ;
    assert(b < 0real ==> b < b * f < -b) by (nonlinear_arith)
        requires
            -1real < f < 1real,
    ;
    assert(b > 0real && f >= 0real ==> b * f >= 0real) by (nonlinear_arith);
    assert(b > 0real && f <= 0real ==> b * f <= 0real) by (nonlinear_arith);
    assert(b < 0real && f >= 0real ==> b * f <= 0real) by (nonlinear_arith);
    assert(b < 0real && f <= 0real ==> b * f >= 0real) by (nonlinear_arith);
}

/// What applying `v` to the values of `args`, one after the other, gives.
pub open spec fn applied(
    limit: nat,
    v: ValueView,
    args: Seq<ValueView>,
    env: Env,
    scope: ScopeView,
) -> Outcome
    decreases args.len(),
{
    if args.len() == 0 {
        Some(Ok(v))
    } else {
        match applied(limit, v, args.drop_last(), env, scope) {
            Some(Ok(f)) => apply_at(limit, f, args.last(), env, scope),
            other => other,
        }
    }
}

/// The values without what they are to be written like.
pub open spec fn bare_values(values: Seq<ValueView>) -> Seq<ValueView> {
    values.map_values(|v: ValueView| bare(v))
}

/// A function that has not got all of its arguments is a function that waits for the rest:
/// with fewer than all it keeps those that it has, and with the last one its body is
/// evaluated, each parameter bound to the argument at its place.
pub proof fn law_currying(
    limit: nat,
    f: FuncView,
    args: Seq<ValueView>,
    env: Env,
    scope: ScopeView,
)
    requires
        args.len() <= f.args.len(),
        f.args.len() > 0,
        forall|i: int| 0 <= i < args.len() ==> !(bare(#[trigger] args[i]) is String),
    ensures
        bare_outcome(
            applied(limit, ValueView::Function(f, Seq::empty()), args, env, scope),
        ) == if args.len() < f.args.len() {
            Some(Ok(ValueView::Function(f, bare_values(args))))
        } else {
            bare_outcome(
                body_at(limit, f.body, bound(env, f.args, bare_values(args)), scope),
            )
        },
    decreases args.len(),
{
    reveal_with_fuel(bare, 2);
    let none = Seq::<ValueView>::empty();
    if args.len() == 0 {
        assert(bare_values(args) =~= none);
    } else {
        let before = args.drop_last();
        assert forall|i: int| 0 <= i < before.len() implies !(bare(
            #[trigger] before[i],
        ) is String) by {
            assert(before[i] == args[i]);
        }
        law_currying(limit, f, before, env, scope);
        let g = applied(limit, ValueView::Function(f, none), before, env, scope)->0->Ok_0;
        let last = args[args.len() - 1];
        assert(bare(g) == ValueView::Function(f, bare_values(before)));
        let all = bare_values(before).push(bare(last));
        assert(all =~= bare_values(args));
        assert(!has_text(g, last));
        if all.len() == f.args.len() {
            let result = body_at(limit, f.body, bound(env, f.args, all), scope);
            if let Some(Ok(v)) = result {
                lemma_bare(v);
            }
        }
    }
}

/// Where a function is defined, its name finds it, unless a function of another spelling
/// of that name stands before it.
pub proof fn law_definition_is_found(funcs: Seq<FuncView>, f: FuncView)
    requires
        forall|i: int|
            0 <= i < funcs.len() && (#[trigger] funcs[i]).name != f.name ==> !is_named(
                f.name,
                funcs[i].name,
                funcs[i].aliases,
            ),
    ensures
        find_func(f.name, with_function(funcs, f)) == Some(f),
{
    let kept = without(funcs, f.name);
    lemma_without(funcs, f.name);
    lemma_found_behind(f.name, kept, f);
}

/// The functions that are kept are those of another name.
proof fn lemma_without(funcs: Seq<FuncView>, name: Seq<char>)
    ensures
        forall|i: int|
            0 <= i < without(funcs, name).len() ==> funcs.contains(
                #[trigger] without(funcs, name)[i],
            ) && without(funcs, name)[i].name != name,
    decreases funcs.len(),
{
    if funcs.len() > 0 {
        let before = funcs.drop_last();
        lemma_without(before, name);
        let kept = without(funcs, name);
        let rest = without(before, name);
        assert forall|i: int| 0 <= i < kept.len() implies funcs.contains(#[trigger] kept[i])
            && kept[i].name != name by {
            if i < rest.len() {
                assert(kept[i] == rest[i]);
                let k = choose|k: int| 0 <= k < before.len() && before[k] == rest[i];
                assert(funcs[k] == kept[i]);
            } else {
                assert(funcs[funcs.len() - 1] == kept[i]);
            }
        }
    }
}

/// A function behind those that a word does not name is found.
proof fn lemma_found_behind(word: Seq<char>, funcs: Seq<FuncView>, f: FuncView)
    requires
        forall|i: int|
            0 <= i < funcs.len() ==> !is_named(
                word,
                (#[trigger] funcs[i]).name,
                funcs[i].aliases,
            ),
        is_named(word, f.name, f.aliases),
    ensures
        find_func(word, funcs.push(f)) == Some(f),
    decreases funcs.len(),
{
    let all = funcs.push(f);
    if funcs.len() > 0 {
        assert(all[0] == funcs[0]);
        assert(all.skip(1) =~= funcs.skip(1).push(f));
        assert forall|i: int| 0 <= i < funcs.skip(1).len() implies !is_named(
            word,
            (#[trigger] funcs.skip(1)[i]).name,
            funcs.skip(1)[i].aliases,
        ) by {
            assert(funcs.skip(1)[i] == funcs[i + 1]);
        }
        lemma_found_behind(word, funcs.skip(1), f);
    }
}

/// Defining a function again replaces it, and leaves no trace of what it was.
pub proof fn law_redefinition_replaces(funcs: Seq<FuncView>, f: FuncView, g: FuncView)
    requires
        f.name == g.name,
    ensures
        with_function(with_function(funcs, f), g) == with_function(funcs, g),
{
    let kept = without(funcs, f.name);
    lemma_without(funcs, f.name);
    lemma_nothing_left_out(kept, f.name);
    assert(kept.push(f).drop_last() =~= kept);
}

/// Functions of other names are all kept.
proof fn lemma_nothing_left_out(funcs: Seq<FuncView>, name: Seq<char>)
    requires
        forall|i: int| 0 <= i < funcs.len() ==> (#[trigger] funcs[i]).name != name,
    ensures
        without(funcs, name) == funcs,
    decreases funcs.len(),
{
    if funcs.len() > 0 {
        let before = funcs.drop_last();
        assert forall|i: int| 0 <= i < before.len() implies (#[trigger] before[i]).name
            != name by {
            assert(before[i] == funcs[i]);
        }
        lemma_nothing_left_out(before, name);
        assert(funcs[funcs.len() - 1].name != name);
        assert(before.push(funcs.last()) =~= funcs);
    } else {
        assert(without(funcs, name) =~= funcs);
    }
}

/// A definition leaves words that name neither the function nor one that it replaces with
/// the meaning that they had.
pub proof fn law_definition_leaves_others(funcs: Seq<FuncView>, f: FuncView, word: Seq<char>)
    requires
        !is_named(word, f.name, f.aliases),
        forall|i: int|
            0 <= i < funcs.len() && (#[trigger] funcs[i]).name == f.name ==> !is_named(
                word,
                funcs[i].name,
                funcs[i].aliases,
            ),
    ensures
        find_func(word, with_function(funcs, f)) == find_func(word, funcs),
{
    lemma_found_before(word, without(funcs, f.name), f);
    lemma_found_without(word, funcs, f.name);
}

/// A function that the word does not name is not found at the end either.
proof fn lemma_found_before(word: Seq<char>, funcs: Seq<FuncView>, f: FuncView)
    requires
        !is_named(word, f.name, f.aliases),
    ensures
        find_func(word, funcs.push(f)) == find_func(word, funcs),
    decreases funcs.len(),
{
    let all = funcs.push(f);
    if funcs.len() > 0 {
        assert(all[0] == funcs[0]);
        assert(all.skip(1) =~= funcs.skip(1).push(f));
        lemma_found_before(word, funcs.skip(1), f);
    } else {
        reveal_with_fuel(find_func, 2);
        assert(all.skip(1) =~= Seq::<FuncView>::empty());
    }
}

/// The first function that a word names in two rows: that of the first row, or else that
/// of the second.
proof fn lemma_found_in_rows(word: Seq<char>, a: Seq<FuncView>, b: Seq<FuncView>)
    ensures
        find_func(word, a + b) == if find_func(word, a) is Some {
            find_func(word, a)
        } else {
            find_func(word, b)
        },
    decreases a.len(),
{
    if a.len() == 0 {
        assert(a + b =~= b);
    } else {
        assert((a + b)[0] == a[0]);
        assert((a + b).skip(1) =~= a.skip(1) + b);
        lemma_found_in_rows(word, a.skip(1), b);
    }
}

/// Leaving out functions that the word does not name does not change what it names.
proof fn lemma_found_without(word: Seq<char>, funcs: Seq<FuncView>, name: Seq<char>)
    requires
        forall|i: int|
            0 <= i < funcs.len() && (#[trigger] funcs[i]).name == name ==> !is_named(
                word,
                funcs[i].name,
                funcs[i].aliases,
            ),
    ensures
        find_func(word, without(funcs, name)) == find_func(word, funcs),
    decreases funcs.len(),
{
    if funcs.len() > 0 {
        let before = funcs.drop_last();
        let last = funcs[funcs.len() - 1];
        assert forall|i: int|
            0 <= i < before.len() && (#[trigger] before[i]).name == name implies !is_named(
            word,
            before[i].name,
            before[i].aliases,
        ) by {
            assert(before[i] == funcs[i]);
        }
        lemma_found_without(word, before, name);
        assert(funcs =~= before + seq![last]);
        lemma_found_in_rows(word, before, seq![last]);
        if last.name == name {
            reveal_with_fuel(find_func, 2);
            assert(seq![last].skip(1) =~= Seq::<FuncView>::empty());
        } else {
            assert(without(funcs, name) =~= without(before, name) + seq![last]);
            lemma_found_in_rows(word, without(before, name), seq![last]);
        }
    }
}

/// A function that is defined stands behind all others, which keep their order; only those
/// of its name, in the same spelling, are gone.
pub proof fn law_definition_stands_last(funcs: Seq<FuncView>, f: FuncView)
    ensures
        with_function(funcs, f) == funcs.filter(|g: FuncView| g.name != f.name).push(f),
{
    lemma_without_is_filter(funcs, f.name);
}

/// The functions that are kept are those of another name, in their order.
proof fn lemma_without_is_filter(funcs: Seq<FuncView>, name: Seq<char>)
    ensures
        without(funcs, name) == funcs.filter(|g: FuncView| g.name != name),
    decreases funcs.len(),
{
    reveal(Seq::filter);
    if funcs.len() > 0 {
        lemma_without_is_filter(funcs.drop_last(), name);
    } else {
        assert(without(funcs, name) =~= funcs);
    }
}

} // verus!
