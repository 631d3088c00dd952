//! Laws of when a line has an answer, and of what the answer depends on.

use crate::eval::{
    apply_at, body_at, bound, computed, concatenated, eval_at, find_func, negated, pair_at,
    size, Env, Outcome, ScopeView,
};
use crate::format::{
    bare, can_measure, cascade, chosen_target, default_units, is_writable, lemma_bare,
    no_target, no_zero_unit, not_shorter, request, shortest,
};
use crate::laws::registry::law_unit_is_found;
use crate::lexer::{space_run, tokens_of};
use crate::parser::{
    extended, joined, joint_at, parsed, target_at, units_at, Operator, CONCATENATION, PRIMARY,
};
use crate::registry::standard_units;
use crate::session::{
    asked, day_length, is_answered, line_at, request_of, scope_of, RequestView,
};
use crate::syntax::{
    ExprView, FuncView, TargetView, TokenView, UnitDefView, UnitView, ValueView,
};
use crate::units::{combined, find_unit, formed, is_named};
use vstd::prelude::*;

verus! {

/// Whether the units that a target asks for can measure a duration.
pub open spec fn is_sound_target(target: TargetView) -> bool {
    target.units is Some ==> no_zero_unit(target.units->0)
}

/// Whether all units that the expression converts to can measure a duration.
pub open spec fn is_sound_expr(e: ExprView) -> bool
    decreases e,
{
    match e {
        ExprView::UnaryMinus(a) => is_sound_expr(*a),
        ExprView::To(a, target) => is_sound_expr(*a) && is_sound_target(target),
        ExprView::Add(a, b) => is_sound_expr(*a) && is_sound_expr(*b),
        ExprView::Sub(a, b) => is_sound_expr(*a) && is_sound_expr(*b),
        ExprView::Mul(a, b) => is_sound_expr(*a) && is_sound_expr(*b),
        ExprView::Div(a, b) => is_sound_expr(*a) && is_sound_expr(*b),
        ExprView::Mod(a, b) => is_sound_expr(*a) && is_sound_expr(*b),
        ExprView::Apply(a, b) => is_sound_expr(*a) && is_sound_expr(*b),
        _ => true,
    }
}

/// Whether the value is no function, and can be written as it was asked for.
pub open spec fn is_sound_value(v: ValueView) -> bool
    decreases v,
{
    match v {
        ValueView::Function(f, args) => false,
        ValueView::Formatted(inner, target) => is_sound_target(target) && is_sound_value(*inner),
        _ => true,
    }
}

/// Whether the registry has days, hours, minutes and seconds, and no unit of length zero.
pub open spec fn is_sound_registry(registry: Seq<UnitDefView>) -> bool {
    &&& default_units(registry) is Some
    &&& forall|i: int| 0 <= i < registry.len() ==> (#[trigger] registry[i]).factor != 0real
}

/// A unit that is found in a registry without units of length zero is not of length zero.
proof fn lemma_found_is_not_zero(word: Seq<char>, registry: Seq<UnitDefView>)
    requires
        forall|i: int| 0 <= i < registry.len() ==> (#[trigger] registry[i]).factor != 0real,
    ensures
        find_unit(word, registry) is Some ==> find_unit(word, registry)->0.factor != 0real,
{
    law_unit_is_found(word, registry);
}

/// Leaving out short units leaves no unit of length zero where there was none.
proof fn lemma_not_shorter(units: Seq<UnitView>, least: real)
    requires
        no_zero_unit(units),
    ensures
        no_zero_unit(not_shorter(units, least)),
    decreases units.len(),
{
    if units.len() > 0 {
        let before = units.drop_last();
        assert forall|i: int| 0 <= i < before.len() implies (#[trigger] before[i]).factor
            != 0real by {
            assert(before[i] == units[i]);
        }
        lemma_not_shorter(before, least);
        let kept = not_shorter(before, least);
        assert(units[units.len() - 1].factor != 0real);
        assert forall|i: int| 0 <= i < not_shorter(units, least).len() implies (
        #[trigger] not_shorter(units, least)[i]).factor != 0real by {
            if i < kept.len() {
                assert(not_shorter(units, least)[i] == kept[i]);
            }
        }
    }
}

/// In a sound registry a duration can be written as any sound target asks.
proof fn lemma_can_measure(
    target: TargetView,
    explicit: Seq<UnitView>,
    registry: Seq<UnitDefView>,
)
    requires
        is_sound_registry(registry),
        is_sound_target(target),
    ensures
        can_measure(cascade(target, explicit, registry)),
{
    lemma_found_is_not_zero("d"@, registry);
    lemma_found_is_not_zero("h"@, registry);
    lemma_found_is_not_zero("m"@, registry);
    lemma_found_is_not_zero("s"@, registry);
    let units = default_units(registry)->0;
    assert(no_zero_unit(units));
    lemma_not_shorter(units, shortest(explicit));
}

/// What a sound value is to be written like is sound, and what is left of it too.
proof fn lemma_sound_bare(v: ValueView)
    requires
        is_sound_value(v),
    ensures
        is_sound_value(bare(v)),
        !(bare(v) is Function),
        request(v) is Some ==> is_sound_target(request(v)->0),
    decreases v,
{
    if let ValueView::Formatted(inner, target) = v {
        lemma_sound_bare(*inner);
    }
}

/// A sound value can be written, with nothing asked for besides or as it asks itself.
pub proof fn lemma_sound_is_writable(
    v: ValueView,
    explicit: Seq<UnitView>,
    registry: Seq<UnitDefView>,
)
    requires
        is_sound_registry(registry),
        is_sound_value(v),
    ensures
        is_writable(v, no_target(), explicit, registry),
        is_writable(bare(v), asked(v), explicit, registry),
{
    lemma_sound_bare(v);
    lemma_bare(v);
    lemma_can_measure(chosen_target(no_target(), v), explicit, registry);
    lemma_can_measure(chosen_target(asked(v), bare(v)), explicit, registry);
}

/// What an outcome is owed: there is one, and its value is sound.
pub open spec fn is_settled(outcome: Outcome) -> bool {
    match outcome {
        None => false,
        Some(Err(e)) => true,
        Some(Ok(v)) => is_sound_value(v),
    }
}

/// What operators make of sound values is settled.
proof fn lemma_operators_settle(
    limit: nat,
    operator: Operator,
    l: ValueView,
    r: ValueView,
    env: Env,
    scope: ScopeView,
)
    requires
        is_sound_registry(scope.registry),
        is_sound_value(l),
        is_sound_value(r),
    ensures
        is_settled(concatenated(l, r, scope)),
        is_settled(computed(operator, l, r, scope)),
        is_settled(apply_at(limit, l, r, env, scope)),
        negated(l) matches Ok(v) ==> is_sound_value(v),
{
    reveal_with_fuel(is_sound_value, 2);
    lemma_sound_bare(l);
    lemma_sound_bare(r);
    lemma_bare(l);
    lemma_bare(r);
    lemma_sound_is_writable(l, scope.explicit, scope.registry);
    lemma_sound_is_writable(r, scope.explicit, scope.registry);
}

/// Without functions every expression has an outcome.
pub proof fn law_no_function_settles(limit: nat, e: ExprView, env: Env, scope: ScopeView)
    requires
        is_sound_expr(e),
        is_sound_registry(scope.registry),
        scope.funcs.len() == 0,
        scope.last is Some ==> is_sound_value(scope.last->0),
        forall|name: Seq<char>| #[trigger] env.contains_key(name) ==> is_sound_value(env[name]),
    ensures
        is_settled(eval_at(limit, e, env, scope)),
    decreases size(e),
{
    match e {
        ExprView::UnaryMinus(a) => {
            law_no_function_settles(limit, *a, env, scope);
            if let Some(Ok(v)) = eval_at(limit, *a, env, scope) {
                lemma_operators_settle(limit, Operator::Add, v, v, env, scope);
            }
        },
        ExprView::To(a, target) => {
            law_no_function_settles(limit, *a, env, scope);
        },
        ExprView::Add(a, b) => {
            lemma_pair_settles(limit, Operator::Add, *a, *b, env, scope);
        },
        ExprView::Sub(a, b) => {
            lemma_pair_settles(limit, Operator::Sub, *a, *b, env, scope);
        },
        ExprView::Mul(a, b) => {
            lemma_pair_settles(limit, Operator::Mul, *a, *b, env, scope);
        },
        ExprView::Div(a, b) => {
            lemma_pair_settles(limit, Operator::Div, *a, *b, env, scope);
        },
        ExprView::Mod(a, b) => {
            lemma_pair_settles(limit, Operator::Mod, *a, *b, env, scope);
        },
        ExprView::Apply(a, b) => {
            lemma_pair_settles(limit, Operator::Apply, *a, *b, env, scope);
        },
        _ => {},
    }
}

/// `law_no_function_settles` for two expressions that an operator joins.
proof fn lemma_pair_settles(
    limit: nat,
    operator: Operator,
    a: ExprView,
    b: ExprView,
    env: Env,
    scope: ScopeView,
)
    requires
        is_sound_expr(a),
        is_sound_expr(b),
        is_sound_registry(scope.registry),
        scope.funcs.len() == 0,
        scope.last is Some ==> is_sound_value(scope.last->0),
        forall|name: Seq<char>| #[trigger] env.contains_key(name) ==> is_sound_value(env[name]),
    ensures
        is_settled(pair_at(limit, operator, a, b, env, scope)),
    decreases size(a) + size(b) + 1,
{
    law_no_function_settles(limit, a, env, scope);
    law_no_function_settles(limit, b, env, scope);
    if let Some(Ok(l)) = eval_at(limit, a, env, scope) {
        if let Some(Ok(r)) = eval_at(limit, b, env, scope) {
            lemma_operators_settle(limit, operator, l, r, env, scope);
        }
    }
}

/// The units that tokens start with are not of length zero where none of the registry is.
proof fn lemma_units_at_sound(tokens: Seq<TokenView>, registry: Seq<UnitDefView>)
    requires
        forall|i: int| 0 <= i < registry.len() ==> (#[trigger] registry[i]).factor != 0real,
    ensures
        no_zero_unit(units_at(tokens, registry).0),
    decreases tokens.len(),
{
    if tokens.len() > 0 {
        lemma_units_at_sound(tokens.skip(1), registry);
        if let TokenView::Ident(word) = tokens[0] {
            lemma_found_is_not_zero(word, registry);
        }
    }
}

/// The expressions that are parsed with a registry without units of length zero are sound.
proof fn lemma_parsed_sound(level: int, tokens: Seq<TokenView>, registry: Seq<UnitDefView>)
    requires
        forall|i: int| 0 <= i < registry.len() ==> (#[trigger] registry[i]).factor != 0real,
    ensures
        match parsed(level, tokens, registry) {
            Ok((e, rest)) => is_sound_expr(e),
            Err(e) => true,
        },
    decreases tokens.len(), PRIMARY - level,
{
    if level < PRIMARY {
        lemma_parsed_sound(level + 1, tokens, registry);
        if let Ok((lhs, rest)) = parsed(level + 1, tokens, registry) {
            if rest.len() < tokens.len() {
                lemma_extended_sound(level, lhs, rest, registry);
            }
        }
    } else if tokens.len() > 0 {
        let rest = tokens.skip(1);
        lemma_parsed_sound(CONCATENATION as int, rest, registry);
        lemma_parsed_sound(PRIMARY as int, rest, registry);
    }
}

/// `lemma_parsed_sound` for what follows an expression.
proof fn lemma_extended_sound(
    level: int,
    lhs: ExprView,
    tokens: Seq<TokenView>,
    registry: Seq<UnitDefView>,
)
    requires
        forall|i: int| 0 <= i < registry.len() ==> (#[trigger] registry[i]).factor != 0real,
        is_sound_expr(lhs),
    ensures
        match extended(level, lhs, tokens, registry) {
            Ok((e, rest)) => is_sound_expr(e),
            Err(e) => true,
        },
    decreases tokens.len(), PRIMARY + 1,
{
    if let Some(joint) = joint_at(level, tokens) {
        let behind = tokens.skip(joint.tokens as int);
        match joint.operator {
            Operator::Convert(rounds) => {
                let t = behind.skip(space_run(behind));
                lemma_units_at_sound(t, registry);
                if let Ok((target, rest)) = target_at(behind, registry, rounds) {
                    let e = ExprView::To(Box::new(lhs), target);
                    assert(is_sound_expr(e));
                    if rest.len() < tokens.len() {
                        lemma_extended_sound(level, e, rest, registry);
                    }
                }
            },
            operator => {
                lemma_parsed_sound(joint.operand as int, behind, registry);
                if let Ok((rhs, rest)) = parsed(joint.operand as int, behind, registry) {
                    let e = joined(operator, lhs, rhs);
                    assert(is_sound_expr(e));
                    if rest.len() < tokens.len() {
                        lemma_extended_sound(level, e, rest, registry);
                    }
                }
            },
        }
    }
}

/// Where no functions are defined, every line has an answer.
///
/// The registry holds days, hours, minutes and seconds and no unit of length zero, and the
/// last value is one that such a line gave.
pub proof fn law_every_line_is_answered(
    limit: nat,
    now: int,
    input: Seq<char>,
    last: Option<ValueView>,
    registry: Seq<UnitDefView>,
)
    requires
        is_sound_registry(registry),
        last is Some ==> is_sound_value(last->0),
    ensures
        match line_at(limit, now, input, last, registry, Seq::empty()) {
            Some((Ok((text, Some(v))), funcs)) => is_sound_value(v),
            Some(other) => true,
            None => false,
        },
{
    let funcs = Seq::<FuncView>::empty();
    if let Ok(RequestView::Compute(e, explicit)) = request_of(input, registry, funcs) {
        let tokens = tokens_of(input)->Ok_0;
        let (durations, units) = formed(tokens, registry, Seq::empty());
        lemma_parsed_sound(CONCATENATION as int, combined(durations), registry);
        assert(is_sound_expr(e));
        let scope = scope_of(explicit, now, last, registry, funcs);
        let env = Map::<Seq<char>, ValueView>::empty();
        law_no_function_settles(limit, e, env, scope);
        if let Some(Ok(v)) = eval_at(limit, e, env, scope) {
            lemma_sound_is_writable(v, explicit, registry);
        }
    }
}

/// Whether the expression does not mention the time of day.
pub open spec fn is_timeless_expr(e: ExprView) -> bool
    decreases e,
{
    match e {
        ExprView::Now => false,
        ExprView::UnaryMinus(a) => is_timeless_expr(*a),
        ExprView::To(a, target) => is_timeless_expr(*a),
        ExprView::Add(a, b) => is_timeless_expr(*a) && is_timeless_expr(*b),
        ExprView::Sub(a, b) => is_timeless_expr(*a) && is_timeless_expr(*b),
        ExprView::Mul(a, b) => is_timeless_expr(*a) && is_timeless_expr(*b),
        ExprView::Div(a, b) => is_timeless_expr(*a) && is_timeless_expr(*b),
        ExprView::Mod(a, b) => is_timeless_expr(*a) && is_timeless_expr(*b),
        ExprView::Apply(a, b) => is_timeless_expr(*a) && is_timeless_expr(*b),
        _ => true,
    }
}

/// Whether no function in the value mentions the time of day.
pub open spec fn is_timeless_value(v: ValueView) -> bool
    decreases v,
{
    match v {
        ValueView::Function(f, args) => is_timeless_expr(f.body) && forall|i: int|
            0 <= i < args.len() ==> is_timeless_value(#[trigger] args[i]),
        ValueView::Formatted(inner, target) => is_timeless_value(*inner),
        _ => true,
    }
}

/// Whether no function that there is, nor the last value, mentions the time of day.
pub open spec fn is_timeless_scope(scope: ScopeView) -> bool {
    &&& forall|i: int|
        0 <= i < scope.funcs.len() ==> is_timeless_expr((#[trigger] scope.funcs[i]).body)
    &&& scope.last is Some ==> is_timeless_value(scope.last->0)
}

/// Whether no parameter in scope mentions the time of day.
pub open spec fn is_timeless_env(env: Env) -> bool {
    forall|name: Seq<char>| #[trigger] env.contains_key(name) ==> is_timeless_value(env[name])
}

/// The scope at another time of day.
pub open spec fn at_time(scope: ScopeView, now: int) -> ScopeView {
    ScopeView { now, ..scope }
}

/// A bare value of a timeless one is timeless.
proof fn lemma_timeless_bare(v: ValueView)
    requires
        is_timeless_value(v),
    ensures
        is_timeless_value(bare(v)),
    decreases v,
{
    if let ValueView::Formatted(inner, target) = v {
        lemma_timeless_bare(*inner);
    }
}

/// A function that is found is one of those that there are.
proof fn lemma_found_is_timeless(word: Seq<char>, funcs: Seq<FuncView>)
    requires
        forall|i: int| 0 <= i < funcs.len() ==> is_timeless_expr((#[trigger] funcs[i]).body),
    ensures
        find_func(word, funcs) is Some ==> is_timeless_expr(find_func(word, funcs)->0.body),
    decreases funcs.len(),
{
    if funcs.len() > 0 {
        let rest = funcs.skip(1);
        assert forall|i: int| 0 <= i < rest.len() implies is_timeless_expr(
            (#[trigger] rest[i]).body,
        ) by {
            assert(rest[i] == funcs[i + 1]);
        }
        assert(is_timeless_expr(funcs[0].body));
        lemma_found_is_timeless(word, rest);
    }
}

/// Binding parameters to timeless values leaves the scope timeless.
proof fn lemma_timeless_bound(env: Env, names: Seq<Seq<char>>, values: Seq<ValueView>)
    requires
        is_timeless_env(env),
        names.len() == values.len(),
        forall|i: int| 0 <= i < values.len() ==> is_timeless_value(#[trigger] values[i]),
    ensures
        is_timeless_env(bound(env, names, values)),
    decreases names.len(),
{
    if names.len() > 0 {
        let before = values.drop_last();
        assert forall|i: int| 0 <= i < before.len() implies is_timeless_value(
            #[trigger] before[i],
        ) by {
            assert(before[i] == values[i]);
        }
        lemma_timeless_bound(env, names.drop_last(), before);
        assert(is_timeless_value(values[values.len() - 1]));
    }
}

/// Whether an outcome's value, if there is one, is timeless.
pub open spec fn is_timeless_outcome(outcome: Outcome) -> bool {
    match outcome {
        Some(Ok(v)) => is_timeless_value(v),
        _ => true,
    }
}

/// The time of day matters only to an expression that mentions it, itself or through a
/// function.
pub proof fn law_time_matters_only_to_now(
    limit: nat,
    e: ExprView,
    env: Env,
    scope: ScopeView,
    now: int,
)
    requires
        is_timeless_expr(e),
        is_timeless_env(env),
        is_timeless_scope(scope),
    ensures
        eval_at(limit, e, env, at_time(scope, now)) == eval_at(limit, e, env, scope),
        is_timeless_outcome(eval_at(limit, e, env, scope)),
    decreases limit, 1 + size(e),
{
    match e {
        ExprView::Ident(word) => {
            lemma_found_is_timeless(word, scope.funcs);
            if !env.contains_key(word) {
                if let Some(f) = find_func(word, scope.funcs) {
                    if f.args.len() == 0 {
                        lemma_timeless_body(limit, f.body, env, scope, now);
                    }
                }
            }
        },
        ExprView::UnaryMinus(a) => {
            law_time_matters_only_to_now(limit, *a, env, scope, now);
            reveal_with_fuel(is_timeless_value, 2);
        },
        ExprView::To(a, target) => {
            law_time_matters_only_to_now(limit, *a, env, scope, now);
        },
        ExprView::Add(a, b) => {
            lemma_timeless_pair(limit, Operator::Add, *a, *b, env, scope, now);
        },
        ExprView::Sub(a, b) => {
            lemma_timeless_pair(limit, Operator::Sub, *a, *b, env, scope, now);
        },
        ExprView::Mul(a, b) => {
            lemma_timeless_pair(limit, Operator::Mul, *a, *b, env, scope, now);
        },
        ExprView::Div(a, b) => {
            lemma_timeless_pair(limit, Operator::Div, *a, *b, env, scope, now);
        },
        ExprView::Mod(a, b) => {
            lemma_timeless_pair(limit, Operator::Mod, *a, *b, env, scope, now);
        },
        ExprView::Apply(a, b) => {
            lemma_timeless_pair(limit, Operator::Apply, *a, *b, env, scope, now);
        },
        _ => {},
    }
}

/// `law_time_matters_only_to_now` for the body of a function.
proof fn lemma_timeless_body(limit: nat, body: ExprView, env: Env, scope: ScopeView, now: int)
    requires
        is_timeless_expr(body),
        is_timeless_env(env),
        is_timeless_scope(scope),
    ensures
        body_at(limit, body, env, at_time(scope, now)) == body_at(limit, body, env, scope),
        is_timeless_outcome(body_at(limit, body, env, scope)),
    decreases limit, 0nat,
{
    if limit > 0 {
        law_time_matters_only_to_now((limit - 1) as nat, body, env, scope, now);
    }
}

/// `law_time_matters_only_to_now` for the application of a value to another.
proof fn lemma_timeless_apply(
    limit: nat,
    l: ValueView,
    r: ValueView,
    env: Env,
    scope: ScopeView,
    now: int,
)
    requires
        is_timeless_value(l),
        is_timeless_value(r),
        is_timeless_env(env),
        is_timeless_scope(scope),
    ensures
        apply_at(limit, l, r, env, at_time(scope, now)) == apply_at(limit, l, r, env, scope),
        is_timeless_outcome(apply_at(limit, l, r, env, scope)),
    decreases limit, 1nat,
{
    reveal_with_fuel(is_timeless_value, 2);
    lemma_timeless_bare(l);
    lemma_timeless_bare(r);
    assert(concatenated(l, r, at_time(scope, now)) == concatenated(l, r, scope));
    if let ValueView::Function(f, args) = bare(l) {
        let all = args.push(bare(r));
        assert forall|i: int| 0 <= i < all.len() implies is_timeless_value(#[trigger] all[i]) by {
            if i < args.len() {
                assert(all[i] == args[i]);
            }
        }
        if all.len() == f.args.len() {
            lemma_timeless_bound(env, f.args, all);
            lemma_timeless_body(limit, f.body, bound(env, f.args, all), scope, now);
        }
    }
}

/// `law_time_matters_only_to_now` for two expressions that an operator joins.
proof fn lemma_timeless_pair(
    limit: nat,
    operator: Operator,
    a: ExprView,
    b: ExprView,
    env: Env,
    scope: ScopeView,
    now: int,
)
    requires
        is_timeless_expr(a),
        is_timeless_expr(b),
        is_timeless_env(env),
        is_timeless_scope(scope),
    ensures
        pair_at(limit, operator, a, b, env, at_time(scope, now)) == pair_at(
            limit,
            operator,
            a,
            b,
            env,
            scope,
        ),
        is_timeless_outcome(pair_at(limit, operator, a, b, env, scope)),
    decreases limit, 1 + size(a) + size(b),
{
    law_time_matters_only_to_now(limit, a, env, scope, now);
    law_time_matters_only_to_now(limit, b, env, scope, now);
    if let Some(Ok(l)) = eval_at(limit, a, env, scope) {
        if let Some(Ok(r)) = eval_at(limit, b, env, scope) {
            if operator is Apply {
                lemma_timeless_apply(limit, l, r, env, scope, now);
            } else {
                reveal_with_fuel(is_timeless_value, 2);
                assert(concatenated(l, r, at_time(scope, now)) == concatenated(l, r, scope));
                assert(computed(operator, l, r, at_time(scope, now)) == computed(
                    operator,
                    l,
                    r,
                    scope,
                ));
            }
        }
    }
}

/// The answer to a line is the same at every time of day, unless the line mentions it,
/// itself or through a function.
pub proof fn law_answer_without_now(
    limit: nat,
    now: int,
    later: int,
    input: Seq<char>,
    last: Option<ValueView>,
    registry: Seq<UnitDefView>,
    funcs: Seq<FuncView>,
)
    requires
        last is Some ==> is_timeless_value(last->0),
        forall|i: int| 0 <= i < funcs.len() ==> is_timeless_expr((#[trigger] funcs[i]).body),
        request_of(input, registry, funcs) matches Ok(RequestView::Compute(e, explicit))
            ==> is_timeless_expr(e),
    ensures
        line_at(limit, later, input, last, registry, funcs) == line_at(
            limit,
            now,
            input,
            last,
            registry,
            funcs,
        ),
{
    if let Ok(RequestView::Compute(e, explicit)) = request_of(input, registry, funcs) {
        let scope = scope_of(explicit, now, last, registry, funcs);
        let env = Map::<Seq<char>, ValueView>::empty();
        law_time_matters_only_to_now(limit, e, env, scope, later);
        assert(at_time(scope, later) == scope_of(explicit, later, last, registry, funcs));
    }
}

/// Where no functions are defined, every line can be evaluated at any time of day.
pub proof fn law_plain_lines_can_be_evaluated(
    input: Seq<char>,
    last: Option<ValueView>,
    registry: Seq<UnitDefView>,
)
    requires
        is_sound_registry(registry),
        last is Some ==> is_sound_value(last->0),
    ensures
        is_answered(input, last, registry, Seq::empty()),
{
    assert forall|now: int| 0 <= now < day_length() implies (#[trigger] line_at(
        usize::MAX as nat,
        now,
        input,
        last,
        registry,
        Seq::empty(),
    )) is Some by {
        law_every_line_is_answered(usize::MAX as nat, now, input, last, registry);
    }
}

/// The standard units can measure every duration.
pub proof fn law_standard_units_are_sound()
    ensures
        is_sound_registry(standard_units()),
{
    let registry = standard_units();
    assert(is_named("d"@, registry[0].primary_name, registry[0].aliases));
    assert(is_named("h"@, registry[1].primary_name, registry[1].aliases));
    assert(is_named("m"@, registry[2].primary_name, registry[2].aliases));
    assert(is_named("s"@, registry[3].primary_name, registry[3].aliases));
    law_unit_is_found("d"@, registry);
    law_unit_is_found("h"@, registry);
    law_unit_is_found("m"@, registry);
    law_unit_is_found("s"@, registry);
}

} // verus!
