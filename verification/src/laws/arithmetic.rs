//! Laws of what operators, conversions and words come to.

use crate::eval::{
    apply_at, body_at, bound, computed, converted, eval_at, find_func, negated, pair_at, Env,
    Outcome, ScopeView,
};
use crate::format::{bare, is_writable, lemma_bare, no_target, request, value_text};
use crate::laws::values::{is_quantity, law_remainder};
use crate::number::{magnitude, truncated};
use crate::parser::Operator;
use crate::session::asked;
use crate::syntax::{ExprView, FuncView, TargetView, UnitDefView, UnitView, ValueView};
use crate::text::lower_case;
use crate::units::{find_unit, is_named};
use vstd::prelude::*;

verus! {

/// What an operator of arithmetic gives without what it is to be written like, where it
/// gives a value.
pub open spec fn result_of(outcome: Outcome) -> Option<ValueView> {
    match outcome {
        Some(Ok(v)) => Some(bare(v)),
        _ => None,
    }
}

/// Numbers are added, subtracted, multiplied and divided exactly.
pub proof fn law_numbers(x: ValueView, y: ValueView, a: real, b: real, scope: ScopeView)
    requires
        bare(x) == ValueView::Number(a),
        bare(y) == ValueView::Number(b),
    ensures
        result_of(computed(Operator::Add, x, y, scope)) == Some(ValueView::Number(a + b)),
        result_of(computed(Operator::Sub, x, y, scope)) == Some(ValueView::Number(a - b)),
        result_of(computed(Operator::Mul, x, y, scope)) == Some(ValueView::Number(a * b)),
        b != 0real ==> (result_of(computed(Operator::Div, x, y, scope)) matches Some(
            ValueView::Number(q),
        ) && q * b == a),
{
    reveal_with_fuel(bare, 2);
    if b != 0real {
        lemma_quotient(a, b);
    }
}

/// A quotient times the divisor is the dividend.
proof fn lemma_quotient(a: real, b: real)
    requires
        b != 0real,
    ensures
        (a / b) * b == a,
{
    assert((a / b) * b == a) by (nonlinear_arith)
        requires
            b != 0real,
    ;
}

/// Durations are added to and subtracted from each other, and the quotient of two is the
/// number of times that the second goes into the first.
pub proof fn law_durations(x: ValueView, y: ValueView, a: real, b: real, scope: ScopeView)
    requires
        bare(x) == ValueView::Duration(a),
        bare(y) == ValueView::Duration(b),
    ensures
        result_of(computed(Operator::Add, x, y, scope)) == Some(ValueView::Duration(a + b)),
        result_of(computed(Operator::Sub, x, y, scope)) == Some(ValueView::Duration(a - b)),
        b != 0real ==> (result_of(computed(Operator::Div, x, y, scope)) matches Some(
            ValueView::Number(q),
        ) && q * b == a),
{
    reveal_with_fuel(bare, 2);
    if b != 0real {
        lemma_quotient(a, b);
    }
}

/// A duration can be multiplied by a number, on either side, and divided by one.
pub proof fn law_multiples(x: ValueView, y: ValueView, a: real, b: real, scope: ScopeView)
    requires
        bare(x) == ValueView::Duration(a),
        bare(y) == ValueView::Number(b),
    ensures
        result_of(computed(Operator::Mul, x, y, scope)) == Some(ValueView::Duration(a * b)),
        result_of(computed(Operator::Mul, y, x, scope)) == Some(ValueView::Duration(a * b)),
        b != 0real ==> (result_of(computed(Operator::Div, x, y, scope)) matches Some(
            ValueView::Duration(q),
        ) && q * b == a),
{
    reveal_with_fuel(bare, 2);
    assert(b * a == a * b) by (nonlinear_arith);
    if b != 0real {
        lemma_quotient(a, b);
    }
}

/// The operator `%` takes the right operand out of the left a whole number of times, as
/// often as it goes into it: what is left is smaller than the right operand, and has the
/// sign of the left or is zero.
pub proof fn law_modulo(x: ValueView, y: ValueView, a: real, b: real, scope: ScopeView)
    requires
        b != 0real,
    ensures
        bare(x) == ValueView::Number(a) && bare(y) == ValueView::Number(b) ==> (result_of(
            computed(Operator::Mod, x, y, scope),
        ) matches Some(ValueView::Number(r)) && is_left_over(a, b, r)),
        bare(x) == ValueView::Duration(a) && bare(y) == ValueView::Duration(b) ==> (result_of(
            computed(Operator::Mod, x, y, scope),
        ) matches Some(ValueView::Duration(r)) && is_left_over(a, b, r)),
{
    reveal_with_fuel(bare, 2);
    law_remainder(a, b);
}

/// Whether `r` is left of `a` once `b` is taken out of it as often as it goes into it.
pub open spec fn is_left_over(a: real, b: real, r: real) -> bool {
    &&& a == b * (truncated(a / b) as real) + r
    &&& magnitude(r) < magnitude(b)
    &&& a >= 0real ==> r >= 0real
    &&& a <= 0real ==> r <= 0real
}

/// No other number of times fits: what is left is told by its size and its sign alone.
pub proof fn law_left_over_is_unique(a: real, b: real, k: int, r: real)
    requires
        b != 0real,
        a == b * (k as real) + r,
        magnitude(r) < magnitude(b),
        a >= 0real ==> r >= 0real,
        a <= 0real ==> r <= 0real,
    ensures
        k == truncated(a / b),
        is_left_over(a, b, r),
{
    law_remainder(a, b);
    let t = truncated(a / b);
    let s = a - b * (t as real);
    let d = k as real - t as real;
    assert(b * d == s - r) by (nonlinear_arith)
        requires
            a == b * (k as real) + r,
            s == a - b * (t as real),
            d == k as real - t as real,
    ;
    assert(magnitude(s - r) < magnitude(b));
    assert(-1real < d < 1real) by {
        assert(b > 0real ==> -1real < d < 1real) by (nonlinear_arith)
            requires
                b > 0real ==> -b < b * d < b,
        ;
        assert(b < 0real ==> -1real < d < 1real) by (nonlinear_arith)
            requires
                b < 0real ==> b < b * d < -b,
        ;
    }
    assert(k == t);
}

/// Whether a duration was converted to one unit that can measure it.
pub open spec fn is_in_one_unit(v: ValueView, unit: real) -> bool {
    request(v) matches Some(target) && target.units is Some && target.units->0.len() == 1
        && target.units->0[0].factor == unit && unit != 0real
}

/// Where the line has no unit that a bare number counts in, a duration that was converted
/// to one unit counts as the number of those units.
pub proof fn law_converted_duration_counts(
    x: ValueView,
    y: ValueView,
    a: real,
    b: real,
    unit: real,
    scope: ScopeView,
)
    requires
        bare(x) == ValueView::Duration(a),
        bare(y) == ValueView::Number(b),
        is_in_one_unit(x, unit),
        scope.inference is None,
    ensures
        result_of(computed(Operator::Add, x, y, scope)) matches Some(ValueView::Number(n)) && (n
            - b) * unit == a,
        result_of(computed(Operator::Add, y, x, scope)) matches Some(ValueView::Number(n)) && (n
            - b) * unit == a,
        result_of(computed(Operator::Sub, x, y, scope)) matches Some(ValueView::Number(n)) && (n
            + b) * unit == a,
        result_of(computed(Operator::Sub, y, x, scope)) matches Some(ValueView::Number(n)) && (b
            - n) * unit == a,
{
    reveal_with_fuel(bare, 2);
    lemma_quotient(a, unit);
}

/// Whether an operator of arithmetic gives no value of two quantities, and what it says.
pub open spec fn complaint(
    operator: Operator,
    x: ValueView,
    y: ValueView,
    inference: Option<real>,
) -> Option<Seq<char>> {
    let mixed = bare(x) is Number != (bare(y) is Number);
    let duration = if bare(x) is Duration {
        x
    } else {
        y
    };
    let counts = request(duration) matches Some(target) && target.units is Some
        && target.units->0.len() == 1 && target.units->0[0].factor != 0real;
    let zero = bare(y) == ValueView::Number(0real) || bare(y) == ValueView::Duration(0real);
    match operator {
        Operator::Add | Operator::Sub => if mixed && inference is None && !counts {
            Some("Ambiguous unitless number (cannot infer unit)"@)
        } else {
            None
        },
        Operator::Mul => if bare(x) is Duration && bare(y) is Duration {
            Some("Cannot multiply two time durations explicitly"@)
        } else {
            None
        },
        Operator::Div => if bare(x) is Number && bare(y) is Duration {
            Some("Cannot divide a number by a time duration"@)
        } else if zero {
            Some("Division by zero"@)
        } else {
            None
        },
        _ => if mixed && inference is None {
            Some("Ambiguous unitless number (cannot infer unit)"@)
        } else if zero || (bare(x) is Duration && bare(y) is Number && inference == Some(0real)) {
            Some("Modulo by zero"@)
        } else {
            None
        },
    }
}

/// Of two quantities an operator of arithmetic gives a value, unless the divisor is zero,
/// no unit is clear, or the operator does not take them.
pub proof fn law_when_arithmetic_fails(
    operator: Operator,
    x: ValueView,
    y: ValueView,
    scope: ScopeView,
)
    requires
        is_quantity(x),
        is_quantity(y),
    ensures
        match complaint(operator, x, y, scope.inference) {
            Some(e) => computed(operator, x, y, scope) == Some::<Result<ValueView, Seq<char>>>(
                Err(e),
            ),
            None => computed(operator, x, y, scope) matches Some(Ok(v)),
        },
{
    if let (ValueView::Duration(a), ValueView::Number(b)) = (bare(x), bare(y)) {
        if let Some(unit) = scope.inference {
            assert(b * unit == 0real <==> b == 0real || unit == 0real) by (nonlinear_arith);
        }
    }
}

/// A result is written as its left operand asks, or else as its right.
pub proof fn law_results_are_written_as_operands(
    operator: Operator,
    x: ValueView,
    y: ValueView,
    scope: ScopeView,
)
    ensures
        computed(operator, x, y, scope) matches Some(Ok(v)) ==> request(v) == if request(
            x,
        ) is Some {
            request(x)
        } else {
            request(y)
        },
{
    reveal_with_fuel(bare, 2);
    lemma_bare(x);
    lemma_bare(y);
}

/// A value and its negative, written alike, add up to nothing; texts and functions have no
/// negative.
pub proof fn law_negative(v: ValueView)
    ensures
        match (bare(v), negated(v)) {
            (ValueView::Number(x), Ok(w)) => request(w) == request(v) && (bare(
                w,
            ) matches ValueView::Number(y) && x + y == 0real),
            (ValueView::Duration(x), Ok(w)) => request(w) == request(v) && (bare(
                w,
            ) matches ValueView::Duration(y) && x + y == 0real),
            (ValueView::Number(x), Err(e)) => false,
            (ValueView::Duration(x), Err(e)) => false,
            (other, result) => result is Err,
        },
{
    reveal_with_fuel(bare, 2);
    lemma_bare(v);
}

/// What a conversion asks for is what the value is written like afterwards, whatever it was
/// converted to before; only what it leaves open stays as it was.
pub proof fn law_conversion_is_what_is_asked(v: ValueView, target: TargetView)
    ensures
        request(converted(v, target)) matches Some(after) && {
            &&& target.units is Some ==> after.units == target.units && after.rounds
                == target.rounds
            &&& target.dp is Some ==> after.dp == target.dp
            &&& (target.units is None && request(v) is Some) ==> after.units
                == request(v)->0.units && after.rounds == request(v)->0.rounds
            &&& (target.dp is None && request(v) is Some) ==> after.dp == request(v)->0.dp
            &&& request(v) is None ==> after == target
        },
        bare(converted(v, target)) == bare(v),
{
}

/// The text that a value is answered with on a line of its own.
pub open spec fn own_text(v: ValueView, explicit: Seq<UnitView>, registry: Seq<UnitDefView>) -> Seq<
    char,
> {
    value_text(bare(v), asked(v), explicit, registry)
}

/// Whether a value can be answered on a line of its own.
pub open spec fn has_own_text(
    v: ValueView,
    explicit: Seq<UnitView>,
    registry: Seq<UnitDefView>,
) -> bool {
    is_writable(bare(v), asked(v), explicit, registry)
}

/// Where nothing is asked for besides, a value is written as it asks itself.
proof fn lemma_own_text(v: ValueView, explicit: Seq<UnitView>, registry: Seq<UnitDefView>)
    ensures
        value_text(v, no_target(), explicit, registry) == own_text(v, explicit, registry),
        is_writable(v, no_target(), explicit, registry) == has_own_text(v, explicit, registry),
{
    lemma_bare(v);
}

/// A text and a value beside it, in either order and added or side by side, are the text of
/// each as it would be answered on a line of its own, one behind the other.
pub proof fn law_appending(
    limit: nat,
    x: ValueView,
    y: ValueView,
    env: Env,
    scope: ScopeView,
)
    requires
        bare(x) is String || bare(y) is String,
    ensures
        has_own_text(x, scope.explicit, scope.registry) && has_own_text(
            y,
            scope.explicit,
            scope.registry,
        ) ==> result_of(computed(Operator::Add, x, y, scope)) == Some(
            ValueView::String(
                own_text(x, scope.explicit, scope.registry) + own_text(
                    y,
                    scope.explicit,
                    scope.registry,
                ),
            ),
        ),
        apply_at(limit, x, y, env, scope) == computed(Operator::Add, x, y, scope),
        computed(Operator::Add, x, y, scope) is None <==> !(has_own_text(
            x,
            scope.explicit,
            scope.registry,
        ) && has_own_text(y, scope.explicit, scope.registry)),
        bare(x) matches ValueView::String(s) ==> own_text(x, scope.explicit, scope.registry) == s,
        bare(y) matches ValueView::String(s) ==> own_text(y, scope.explicit, scope.registry) == s,
        forall|operator: Operator| #![trigger computed(operator, x, y, scope)]
            !(operator is Add) ==> computed(operator, x, y, scope) matches Some(Err(e)),
{
    reveal_with_fuel(bare, 2);
    lemma_own_text(x, scope.explicit, scope.registry);
    lemma_own_text(y, scope.explicit, scope.registry);
    lemma_bare(x);
    lemma_bare(y);
}

/// What a word means: a parameter, or else the first function of that name, or else the
/// first unit of that name. A function without parameters is called at once.
pub proof fn law_words(limit: nat, word: Seq<char>, env: Env, scope: ScopeView)
    ensures
        ({
            let meaning = eval_at(limit, ExprView::Ident(word), env, scope);
            &&& env.contains_key(word) ==> meaning == Some::<Result<ValueView, Seq<char>>>(
                Ok(env[word]),
            )
            &&& !env.contains_key(word) ==> match find_func(word, scope.funcs) {
                Some(f) => if f.args.len() > 0 {
                    meaning == Some::<Result<ValueView, Seq<char>>>(
                        Ok(ValueView::Function(f, Seq::empty())),
                    )
                } else if limit > 0 {
                    meaning == eval_at((limit - 1) as nat, f.body, env, scope)
                } else {
                    meaning is None
                },
                None => match find_unit(word, scope.registry) {
                    Some(u) => meaning == Some::<Result<ValueView, Seq<char>>>(
                        Ok(ValueView::Duration(u.factor)),
                    ),
                    None => meaning == Some::<Result<ValueView, Seq<char>>>(
                        Err("Unknown identifier: "@ + word),
                    ),
                },
            }
        }),
{
    reveal_with_fuel(eval_at, 2);
    reveal_with_fuel(body_at, 2);
}

/// The function that a word names is the first of those whose name or other name it is, in
/// upper or lower case.
pub proof fn law_first_function_is_found(word: Seq<char>, funcs: Seq<FuncView>)
    ensures
        match find_func(word, funcs) {
            Some(f) => exists|i: int|
                #![trigger funcs[i]]
                0 <= i < funcs.len() && funcs[i] == f && is_named(
                    word,
                    funcs[i].name,
                    funcs[i].aliases,
                ) && forall|j: int|
                    0 <= j < i ==> !is_named(word, (#[trigger] funcs[j]).name, funcs[j].aliases),
            None => forall|j: int|
                0 <= j < funcs.len() ==> !is_named(
                    word,
                    (#[trigger] funcs[j]).name,
                    funcs[j].aliases,
                ),
        },
    decreases funcs.len(),
{
    if funcs.len() > 0 {
        let rest = funcs.skip(1);
        assert(forall|j: int| 0 <= j < rest.len() ==> #[trigger] rest[j] == funcs[j + 1]);
        if is_named(word, funcs[0].name, funcs[0].aliases) {
            assert(funcs[0] == find_func(word, funcs)->0);
        } else {
            law_first_function_is_found(word, rest);
            if let Some(f) = find_func(word, rest) {
                let i = choose|i: int|
                    #![trigger rest[i]]
                    0 <= i < rest.len() && rest[i] == f && is_named(
                        word,
                        rest[i].name,
                        rest[i].aliases,
                    ) && forall|j: int|
                        0 <= j < i ==> !is_named(
                            word,
                            (#[trigger] rest[j]).name,
                            rest[j].aliases,
                        );
                assert(funcs[i + 1] == f);
                assert forall|j: int| 0 <= j < i + 1 implies !is_named(
                    word,
                    (#[trigger] funcs[j]).name,
                    funcs[j].aliases,
                ) by {
                    if j > 0 {
                        assert(rest[j - 1] == funcs[j]);
                    }
                }
            } else {
                assert forall|j: int| 0 <= j < funcs.len() implies !is_named(
                    word,
                    (#[trigger] funcs[j]).name,
                    funcs[j].aliases,
                ) by {
                    if j > 0 {
                        assert(rest[j - 1] == funcs[j]);
                    }
                }
            }
        }
    }
}

/// The unit that a word names is the first of those whose name or other name it is, in
/// upper or lower case.
pub proof fn law_first_unit_is_found(word: Seq<char>, registry: Seq<UnitDefView>)
    ensures
        match find_unit(word, registry) {
            Some(u) => exists|i: int|
                #![trigger registry[i]]
                0 <= i < registry.len() && registry[i].primary_name == u.name
                    && registry[i].factor == u.factor && is_named(
                    word,
                    registry[i].primary_name,
                    registry[i].aliases,
                ) && forall|j: int|
                    0 <= j < i ==> !is_named(
                        word,
                        (#[trigger] registry[j]).primary_name,
                        registry[j].aliases,
                    ),
            None => forall|j: int|
                0 <= j < registry.len() ==> !is_named(
                    word,
                    (#[trigger] registry[j]).primary_name,
                    registry[j].aliases,
                ),
        },
    decreases registry.len(),
{
    if registry.len() > 0 {
        let rest = registry.skip(1);
        assert(forall|j: int| 0 <= j < rest.len() ==> #[trigger] rest[j] == registry[j + 1]);
        if is_named(word, registry[0].primary_name, registry[0].aliases) {
            assert(registry[0].factor == find_unit(word, registry)->0.factor);
        } else {
            law_first_unit_is_found(word, rest);
            if let Some(u) = find_unit(word, rest) {
                let i = choose|i: int|
                    #![trigger rest[i]]
                    0 <= i < rest.len() && rest[i].primary_name == u.name && rest[i].factor
                        == u.factor && is_named(word, rest[i].primary_name, rest[i].aliases)
                        && forall|j: int|
                        0 <= j < i ==> !is_named(
                            word,
                            (#[trigger] rest[j]).primary_name,
                            rest[j].aliases,
                        );
                assert(registry[i + 1] == rest[i]);
                assert forall|j: int| 0 <= j < i + 1 implies !is_named(
                    word,
                    (#[trigger] registry[j]).primary_name,
                    registry[j].aliases,
                ) by {
                    if j > 0 {
                        assert(rest[j - 1] == registry[j]);
                    }
                }
            } else {
                assert forall|j: int| 0 <= j < registry.len() implies !is_named(
                    word,
                    (#[trigger] registry[j]).primary_name,
                    registry[j].aliases,
                ) by {
                    if j > 0 {
                        assert(rest[j - 1] == registry[j]);
                    }
                }
            }
        }
    }
}

/// A definition goes by its name and by each of its other names, and by those alone, in
/// upper or lower case.
pub proof fn law_names(word: Seq<char>, name: Seq<char>, aliases: Seq<Seq<char>>)
    ensures
        is_named(word, name, aliases) <==> exists|w: Seq<char>|
            #![trigger lower_case(w)]
            lower_case(w) == lower_case(word) && (w == name || aliases.contains(w)),
        is_named(name, name, aliases),
        forall|i: int| 0 <= i < aliases.len() ==> is_named(#[trigger] aliases[i], name, aliases),
{
    if is_named(word, name, aliases) && lower_case(word) != lower_case(name) {
        let i = choose|i: int|
            0 <= i < aliases.len() && lower_case(#[trigger] aliases[i]) == lower_case(word);
        assert(aliases.contains(aliases[i]));
    }
}

/// Functions are found in upper and lower case alike.
pub proof fn law_function_case(a: Seq<char>, b: Seq<char>, funcs: Seq<FuncView>)
    requires
        lower_case(a) == lower_case(b),
    ensures
        find_func(a, funcs) == find_func(b, funcs),
    decreases funcs.len(),
{
    if funcs.len() > 0 {
        law_function_case(a, b, funcs.skip(1));
    }
}

/// Each parameter is bound to the argument at its place, a later one of the same name over
/// an earlier one, and all other words keep the meaning that they had.
pub proof fn law_parameters(
    env: Env,
    names: Seq<Seq<char>>,
    values: Seq<ValueView>,
    word: Seq<char>,
)
    requires
        names.len() == values.len(),
    ensures
        forall|i: int|
            #![trigger names[i]]
            0 <= i < names.len() && names[i] == word && (forall|j: int|
                i < j < names.len() ==> #[trigger] names[j] != word) ==> bound(
                env,
                names,
                values,
            ).contains_key(word) && bound(env, names, values)[word] == values[i],
        !names.contains(word) ==> bound(env, names, values).contains_key(word)
            == env.contains_key(word) && (env.contains_key(word) ==> bound(
            env,
            names,
            values,
        )[word] == env[word]),
    decreases names.len(),
{
    if names.len() > 0 {
        let before = names.drop_last();
        law_parameters(env, before, values.drop_last(), word);
        let n = names.len() - 1;
        assert(forall|j: int| 0 <= j < n ==> #[trigger] before[j] == names[j]);
        assert(names.last() == names[n]);
        if !names.contains(word) {
            assert(!before.contains(word)) by {
                if before.contains(word) {
                    let j = choose|j: int| 0 <= j < before.len() && before[j] == word;
                    assert(names[j] == word);
                }
            }
        }
        assert forall|i: int|
            #![trigger names[i]]
            0 <= i < names.len() && names[i] == word && (forall|j: int|
                i < j < names.len() ==> #[trigger] names[j] != word) implies bound(
            env,
            names,
            values,
        ).contains_key(word) && bound(env, names, values)[word] == values[i] by {
            if i < n {
                assert(names[n] != word);
                assert(before[i] == word);
                assert forall|j: int| i < j < before.len() implies #[trigger] before[j]
                    != word by {
                    assert(names[j] != word);
                }
            }
        }
    }
}

/// An operator computes with the values of its operands. The left is evaluated first, and
/// what is wrong with it is said before what is wrong with the right.
pub proof fn law_operands_are_evaluated(
    limit: nat,
    a: ExprView,
    b: ExprView,
    env: Env,
    scope: ScopeView,
)
    ensures
        ({
            let add = eval_at(limit, ExprView::Add(Box::new(a), Box::new(b)), env, scope);
            let subtract = eval_at(limit, ExprView::Sub(Box::new(a), Box::new(b)), env, scope);
            let multiply = eval_at(limit, ExprView::Mul(Box::new(a), Box::new(b)), env, scope);
            let divide = eval_at(limit, ExprView::Div(Box::new(a), Box::new(b)), env, scope);
            let modulo = eval_at(limit, ExprView::Mod(Box::new(a), Box::new(b)), env, scope);
            let apply = eval_at(limit, ExprView::Apply(Box::new(a), Box::new(b)), env, scope);
            let left = eval_at(limit, a, env, scope);
            let right = eval_at(limit, b, env, scope);
            match (left, right) {
                (Some(Ok(l)), Some(Ok(r))) => {
                    &&& add == computed(Operator::Add, l, r, scope)
                    &&& subtract == computed(Operator::Sub, l, r, scope)
                    &&& multiply == computed(Operator::Mul, l, r, scope)
                    &&& divide == computed(Operator::Div, l, r, scope)
                    &&& modulo == computed(Operator::Mod, l, r, scope)
                    &&& apply == apply_at(limit, l, r, env, scope)
                },
                (Some(Ok(l)), other) => {
                    &&& add == other && subtract == other && multiply == other
                    &&& divide == other && modulo == other && apply == other
                },
                (other, any) => {
                    &&& add == other && subtract == other && multiply == other
                    &&& divide == other && modulo == other && apply == other
                },
            }
        }),
{
    reveal_with_fuel(eval_at, 2);
    reveal_with_fuel(pair_at, 2);
}

/// Literals are what they say, `now` is the time of day in seconds, `_` is the last value,
/// and a sign and a conversion apply to the value behind and before them.
pub proof fn law_operands_are_what_they_say(
    limit: nat,
    a: ExprView,
    x: real,
    s: Seq<char>,
    target: TargetView,
    env: Env,
    scope: ScopeView,
)
    ensures
        eval_at(limit, ExprView::Number(x), env, scope) == Some::<Result<ValueView, Seq<char>>>(
            Ok(ValueView::Number(x)),
        ),
        eval_at(limit, ExprView::Duration(x), env, scope) == Some::<
            Result<ValueView, Seq<char>>,
        >(Ok(ValueView::Duration(x))),
        eval_at(limit, ExprView::String(s), env, scope) == Some::<Result<ValueView, Seq<char>>>(
            Ok(ValueView::String(s)),
        ),
        eval_at(limit, ExprView::Now, env, scope) == Some::<Result<ValueView, Seq<char>>>(
            Ok(ValueView::Duration(scope.now as real)),
        ),
        scope.last matches Some(v) ==> eval_at(limit, ExprView::Underscore, env, scope) == Some::<
            Result<ValueView, Seq<char>>,
        >(Ok(v)),
        eval_at(limit, a, env, scope) matches Some(Ok(v)) ==> eval_at(
            limit,
            ExprView::UnaryMinus(Box::new(a)),
            env,
            scope,
        ) == Some(negated(v)) && eval_at(
            limit,
            ExprView::To(Box::new(a), target),
            env,
            scope,
        ) == Some::<Result<ValueView, Seq<char>>>(Ok(converted(v, target))),
{
}

/// What stands side by side is written as the left one asks, or else as the right: products,
/// sums of durations, appended texts, and what a function gives.
pub proof fn law_applied_values_are_written_as_operands(
    limit: nat,
    x: ValueView,
    y: ValueView,
    env: Env,
    scope: ScopeView,
)
    requires
        request(x) is Some || request(y) is Some,
    ensures
        apply_at(limit, x, y, env, scope) matches Some(Ok(v)) ==> request(v) == if request(
            x,
        ) is Some {
            request(x)
        } else {
            request(y)
        },
{
}

/// Texts can be added and appended, and functions applied; neither can be computed with in
/// any other way, and what is said of it names the operator.
pub proof fn law_texts_and_functions_are_no_operands(
    operator: Operator,
    x: ValueView,
    y: ValueView,
    scope: ScopeView,
)
    requires
        !is_quantity(x) || !is_quantity(y),
        bare(x) is String || bare(y) is String ==> !(operator is Add),
    ensures
        ({
            let text = bare(x) is String || bare(y) is String;
            computed(operator, x, y, scope) == Some::<Result<ValueView, Seq<char>>>(
                Err(
                    match operator {
                        Operator::Add => "Cannot add these types"@,
                        Operator::Sub => if text {
                            "Cannot subtract strings"@
                        } else {
                            "Cannot subtract these types"@
                        },
                        Operator::Mul => if text {
                            "Cannot multiply strings"@
                        } else {
                            "Cannot multiply two time durations explicitly"@
                        },
                        Operator::Div => if text {
                            "Cannot divide strings"@
                        } else {
                            "Cannot divide a number by a time duration"@
                        },
                        _ => if text {
                            "Cannot modulo strings"@
                        } else {
                            "Cannot modulo these types"@
                        },
                    },
                ),
            )
        }),
{
    lemma_bare(x);
    lemma_bare(y);
}

/// A quantity cannot be applied to a function, and neither a text nor a function has a
/// negative.
pub proof fn law_wrong_applications(
    limit: nat,
    x: ValueView,
    y: ValueView,
    env: Env,
    scope: ScopeView,
)
    requires
        bare(y) is Function,
    ensures
        is_quantity(x) ==> apply_at(limit, x, y, env, scope) == Some::<
            Result<ValueView, Seq<char>>,
        >(Err("Invalid function application or juxtaposition"@)),
        negated(y) == Err::<ValueView, Seq<char>>("Cannot negate a function"@),
        bare(x) is String ==> negated(x) == Err::<ValueView, Seq<char>>(
            "Cannot negate a string"@,
        ),
{
    lemma_bare(x);
    lemma_bare(y);
}

} // verus!
