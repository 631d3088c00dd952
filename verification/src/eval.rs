//! From an expression to a value.

use crate::format::{
    bare, can_format, format_value, is_writable, lemma_bare, no_target, request, value_text,
};
use crate::number::{remainder, Rational};
use crate::parser::Operator;
use crate::syntax::{
    defs_view, funcs_view, lemma_values_view, texts, units_view, values_view, ConversionTarget,
    Expr, ExprView, FormatUnit, FuncDef, FuncView, TargetView, UnitDef, UnitDefView, UnitView,
    Value, ValueView,
};
use crate::units::{find_unit, goes_by, is_named, parse_single_unit};
use vstd::prelude::*;

verus! {

/// What an expression is evaluated against: the units and functions that there are, the
/// value of the line before, the unit that a bare number beside a duration counts in, the
/// units that the line is written in, and the seconds since midnight.
pub struct Scope<'a> {
    pub registry: &'a [UnitDef],
    pub funcs: &'a [FuncDef],
    pub last_val: Option<&'a Value>,
    pub inference_factor: Option<&'a Rational>,
    pub explicit_units: &'a [FormatUnit],
    pub now: u32,
}

/// The model of a `Scope`.
#[verifier::ext_equal]
pub struct ScopeView {
    pub registry: Seq<UnitDefView>,
    pub funcs: Seq<FuncView>,
    pub last: Option<ValueView>,
    pub inference: Option<real>,
    pub explicit: Seq<UnitView>,
    pub now: int,
}

impl<'a> View for Scope<'a> {
    type V = ScopeView;

    open spec fn view(&self) -> ScopeView {
        ScopeView {
            registry: defs_view(self.registry@),
            funcs: funcs_view(self.funcs@),
            last: match self.last_val {
                Some(v) => Some(v@),
                None => None,
            },
            inference: match self.inference_factor {
                Some(x) => Some(x@),
                None => None,
            },
            explicit: units_view(self.explicit_units@),
            now: self.now as int,
        }
    }
}

/// The values of the parameters in scope.
pub type Env = Map<Seq<char>, ValueView>;

/// What evaluating gives: a value or a complaint. It is `None` where functions call each
/// other too deeply, and where a duration would have to be written in a unit of length
/// zero or in units that the registry lacks.
pub type Outcome = Option<Result<ValueView, Seq<char>>>;

/// The model of what a list of bindings binds: a later one hides an earlier one.
pub open spec fn env_view(env: Seq<(String, Value)>) -> Env
    decreases env.len(),
{
    if env.len() == 0 {
        Map::empty()
    } else {
        env_view(env.drop_last()).insert(env.last().0@, env.last().1@)
    }
}

/// `env` with each of `names` bound to the value at its place.
pub open spec fn bound(env: Env, names: Seq<Seq<char>>, values: Seq<ValueView>) -> Env
    decreases names.len(),
{
    if names.len() == 0 {
        env
    } else {
        bound(env, names.drop_last(), values.drop_last()).insert(names.last(), values.last())
    }
}

/// The first function that `word` names.
pub open spec fn find_func(word: Seq<char>, funcs: Seq<FuncView>) -> Option<FuncView>
    decreases funcs.len(),
{
    if funcs.len() == 0 {
        None
    } else if is_named(word, funcs[0].name, funcs[0].aliases) {
        Some(funcs[0])
    } else {
        find_func(word, funcs.skip(1))
    }
}

/// `v`, to be written as `asked`.
pub open spec fn wrapped(v: ValueView, asked: Option<TargetView>) -> ValueView {
    match asked {
        Some(target) => ValueView::Formatted(Box::new(v), target),
        None => v,
    }
}

/// What a result is written like: as its left operand, or else as its right.
pub open spec fn either_request(l: ValueView, r: ValueView) -> Option<TargetView> {
    match request(l) {
        Some(target) => Some(target),
        None => request(r),
    }
}

/// The target of a conversion of a value that was converted before: what the new one
/// leaves open stays as it was.
pub open spec fn merged(target: TargetView, before: TargetView) -> TargetView {
    TargetView {
        dp: if target.dp is None {
            before.dp
        } else {
            target.dp
        },
        units: if target.units is None {
            before.units
        } else {
            target.units
        },
        rounds: if target.units is None {
            before.rounds
        } else {
            target.rounds
        },
    }
}

/// The value converted to `target`.
pub open spec fn converted(v: ValueView, target: TargetView) -> ValueView {
    match v {
        ValueView::Formatted(inner, before) => ValueView::Formatted(inner, merged(target, before)),
        _ => ValueView::Formatted(Box::new(v), target),
    }
}

/// Whether one of two values is a text.
pub open spec fn has_text(l: ValueView, r: ValueView) -> bool {
    bare(l) is String || bare(r) is String
}

/// Two values written one behind the other.
pub open spec fn concatenated(l: ValueView, r: ValueView, scope: ScopeView) -> Outcome {
    if is_writable(l, no_target(), scope.explicit, scope.registry) && is_writable(
        r,
        no_target(),
        scope.explicit,
        scope.registry,
    ) {
        let text = value_text(l, no_target(), scope.explicit, scope.registry) + value_text(
            r,
            no_target(),
            scope.explicit,
            scope.registry,
        );
        Some(Ok(wrapped(ValueView::String(text), either_request(l, r))))
    } else {
        None
    }
}

/// How many of the one unit that it was converted to a duration amounts to.
pub open spec fn count_of(seconds: real, asked: Option<TargetView>) -> Option<real> {
    match asked {
        Some(target) => if target.units is Some && target.units->0.len() == 1
            && target.units->0[0].factor != 0real {
            Some(seconds / target.units->0[0].factor)
        } else {
            None
        },
        None => None,
    }
}

/// What is said where a bare number stands beside a duration and no unit is clear.
pub open spec fn ambiguous() -> Seq<char> {
    "Ambiguous unitless number (cannot infer unit)"@
}

/// The sum, or the difference.
pub open spec fn plus_or_minus(a: real, b: real, minus: bool) -> real {
    if minus {
        a - b
    } else {
        a + b
    }
}

/// The sum or difference of two values that are no texts. A bare number beside a duration
/// counts in the unit of the line; where that is not clear, a duration that was converted
/// to one unit counts as a number of those.
pub open spec fn sum_of(
    l: ValueView,
    r: ValueView,
    minus: bool,
    inference: Option<real>,
) -> Result<ValueView, Seq<char>> {
    match (bare(l), bare(r)) {
        (ValueView::Number(a), ValueView::Number(b)) => Ok(
            ValueView::Number(plus_or_minus(a, b, minus)),
        ),
        (ValueView::Duration(a), ValueView::Duration(b)) => Ok(
            ValueView::Duration(plus_or_minus(a, b, minus)),
        ),
        (ValueView::Duration(a), ValueView::Number(b)) => match inference {
            Some(unit) => Ok(ValueView::Duration(plus_or_minus(a, b * unit, minus))),
            None => match count_of(a, request(l)) {
                Some(n) => Ok(ValueView::Number(plus_or_minus(n, b, minus))),
                None => Err(ambiguous()),
            },
        },
        (ValueView::Number(a), ValueView::Duration(b)) => match inference {
            Some(unit) => Ok(ValueView::Duration(plus_or_minus(a * unit, b, minus))),
            None => match count_of(b, request(r)) {
                Some(n) => Ok(ValueView::Number(plus_or_minus(a, n, minus))),
                None => Err(ambiguous()),
            },
        },
        _ => Err(
            if minus {
                "Cannot subtract these types"@
            } else {
                "Cannot add these types"@
            },
        ),
    }
}

/// The product of two values that are no texts.
pub open spec fn product_of(l: ValueView, r: ValueView) -> Result<ValueView, Seq<char>> {
    match (bare(l), bare(r)) {
        (ValueView::Number(a), ValueView::Number(b)) => Ok(ValueView::Number(a * b)),
        (ValueView::Number(a), ValueView::Duration(b)) => Ok(ValueView::Duration(a * b)),
        (ValueView::Duration(b), ValueView::Number(a)) => Ok(ValueView::Duration(a * b)),
        _ => Err("Cannot multiply two time durations explicitly"@),
    }
}

/// The quotient of two values that are no texts.
pub open spec fn quotient_of(l: ValueView, r: ValueView) -> Result<ValueView, Seq<char>> {
    match (bare(l), bare(r)) {
        (ValueView::Number(a), ValueView::Number(b)) => if b == 0real {
            Err("Division by zero"@)
        } else {
            Ok(ValueView::Number(a / b))
        },
        (ValueView::Duration(a), ValueView::Number(b)) => if b == 0real {
            Err("Division by zero"@)
        } else {
            Ok(ValueView::Duration(a / b))
        },
        (ValueView::Duration(a), ValueView::Duration(b)) => if b == 0real {
            Err("Division by zero"@)
        } else {
            Ok(ValueView::Number(a / b))
        },
        _ => Err("Cannot divide a number by a time duration"@),
    }
}

/// The remainder of two durations, or what is wrong with the divisor.
pub open spec fn duration_remainder(a: real, b: real) -> Result<ValueView, Seq<char>> {
    if b == 0real {
        Err("Modulo by zero"@)
    } else {
        Ok(ValueView::Duration(remainder(a, b)))
    }
}

/// The remainder of two values that are no texts. A bare number beside a duration counts
/// in the unit of the line.
pub open spec fn remainder_of(l: ValueView, r: ValueView, inference: Option<real>) -> Result<
    ValueView,
    Seq<char>,
> {
    match (bare(l), bare(r)) {
        (ValueView::Number(a), ValueView::Number(b)) => if b == 0real {
            Err("Modulo by zero"@)
        } else {
            Ok(ValueView::Number(remainder(a, b)))
        },
        (ValueView::Duration(a), ValueView::Duration(b)) => duration_remainder(a, b),
        (ValueView::Duration(a), ValueView::Number(b)) => match inference {
            Some(unit) => duration_remainder(a, b * unit),
            None => Err(ambiguous()),
        },
        (ValueView::Number(a), ValueView::Duration(b)) => match inference {
            Some(unit) => duration_remainder(a * unit, b),
            None => Err(ambiguous()),
        },
        _ => Err("Cannot modulo these types"@),
    }
}

/// What is said of a text in a sum, product or quotient.
pub open spec fn no_texts(operator: Operator) -> Seq<char> {
    match operator {
        Operator::Sub => "Cannot subtract strings"@,
        Operator::Mul => "Cannot multiply strings"@,
        Operator::Div => "Cannot divide strings"@,
        _ => "Cannot modulo strings"@,
    }
}

/// What an operator of arithmetic makes of two values: a text added to a value is
/// appended to it, and no other operator takes texts.
pub open spec fn computed(operator: Operator, l: ValueView, r: ValueView, scope: ScopeView) -> Outcome {
    if has_text(l, r) {
        if operator is Add {
            concatenated(l, r, scope)
        } else {
            Some(Err(no_texts(operator)))
        }
    } else {
        let result = match operator {
            Operator::Add => sum_of(l, r, false, scope.inference),
            Operator::Sub => sum_of(l, r, true, scope.inference),
            Operator::Mul => product_of(l, r),
            Operator::Div => quotient_of(l, r),
            _ => remainder_of(l, r, scope.inference),
        };
        match result {
            Ok(v) => Some(Ok(wrapped(v, either_request(l, r)))),
            Err(e) => Some(Err(e)),
        }
    }
}

/// The value with the other sign.
pub open spec fn negated(v: ValueView) -> Result<ValueView, Seq<char>> {
    match bare(v) {
        ValueView::Number(x) => Ok(wrapped(ValueView::Number(-x), request(v))),
        ValueView::Duration(x) => Ok(wrapped(ValueView::Duration(-x), request(v))),
        ValueView::String(s) => Err("Cannot negate a string"@),
        _ => Err("Cannot negate a function"@),
    }
}

/// How many parts an expression has.
pub open spec fn size(e: ExprView) -> nat
    decreases e,
{
    match e {
        ExprView::UnaryMinus(a) => 2 + size(*a),
        ExprView::To(a, target) => 2 + size(*a),
        ExprView::Add(a, b) => 2 + size(*a) + size(*b),
        ExprView::Sub(a, b) => 2 + size(*a) + size(*b),
        ExprView::Mul(a, b) => 2 + size(*a) + size(*b),
        ExprView::Div(a, b) => 2 + size(*a) + size(*b),
        ExprView::Mod(a, b) => 2 + size(*a) + size(*b),
        ExprView::Apply(a, b) => 2 + size(*a) + size(*b),
        _ => 1,
    }
}

/// What is said of a word that names nothing.
pub open spec fn unknown_identifier(word: Seq<char>) -> Seq<char> {
    "Unknown identifier: "@ + word
}

/// The value of a function's body, one call deeper.
pub open spec fn body_at(limit: nat, body: ExprView, env: Env, scope: ScopeView) -> Outcome
    decreases limit, 0nat,
{
    if limit == 0 {
        None
    } else {
        eval_at((limit - 1) as nat, body, env, scope)
    }
}

/// What applying `l` to `r` gives where functions may call each other `limit` deep.
///
/// Numbers are multiplied, durations added and texts appended. A function takes the
/// value as its next argument, and with the last one its body is evaluated.
pub open spec fn apply_at(
    limit: nat,
    l: ValueView,
    r: ValueView,
    env: Env,
    scope: ScopeView,
) -> Outcome
    decreases limit, 1nat,
{
    if has_text(l, r) {
        concatenated(l, r, scope)
    } else {
        let result: Outcome = match (bare(l), bare(r)) {
            (ValueView::Number(a), ValueView::Number(b)) => Some(Ok(ValueView::Number(a * b))),
            (ValueView::Number(a), ValueView::Duration(b)) => Some(Ok(ValueView::Duration(a * b))),
            (ValueView::Duration(a), ValueView::Number(b)) => Some(Ok(ValueView::Duration(a * b))),
            (ValueView::Duration(a), ValueView::Duration(b)) => Some(
                Ok(ValueView::Duration(a + b)),
            ),
            (ValueView::Function(f, args), v) => {
                let all = args.push(v);
                if all.len() == f.args.len() {
                    body_at(limit, f.body, bound(env, f.args, all), scope)
                } else {
                    Some(Ok(ValueView::Function(f, all)))
                }
            },
            _ => Some(Err("Invalid function application or juxtaposition"@)),
        };
        match result {
            Some(Ok(v)) => Some(Ok(wrapped(v, either_request(l, r)))),
            other => other,
        }
    }
}

/// The value of two expressions that an operator joins. The left one is evaluated first,
/// and the first complaint ends it.
pub open spec fn pair_at(
    limit: nat,
    operator: Operator,
    a: ExprView,
    b: ExprView,
    env: Env,
    scope: ScopeView,
) -> Outcome
    decreases limit, 1 + size(a) + size(b),
{
    match eval_at(limit, a, env, scope) {
        Some(Ok(l)) => match eval_at(limit, b, env, scope) {
            Some(Ok(r)) => if operator is Apply {
                apply_at(limit, l, r, env, scope)
            } else {
                computed(operator, l, r, scope)
            },
            other => other,
        },
        other => other,
    }
}

/// The value of an expression where functions may call each other `limit` deep.
///
/// A word names a parameter, or else a function, or else a unit.
pub open spec fn eval_at(limit: nat, e: ExprView, env: Env, scope: ScopeView) -> Outcome
    decreases limit, 1 + size(e),
{
    match e {
        ExprView::Number(x) => Some(Ok(ValueView::Number(x))),
        ExprView::Duration(x) => Some(Ok(ValueView::Duration(x))),
        ExprView::String(s) => Some(Ok(ValueView::String(s))),
        ExprView::Ident(word) => if env.contains_key(word) {
            Some(Ok(env[word]))
        } else {
            match find_func(word, scope.funcs) {
                Some(f) => if f.args.len() == 0 {
                    body_at(limit, f.body, env, scope)
                } else {
                    Some(Ok(ValueView::Function(f, Seq::empty())))
                },
                None => match find_unit(word, scope.registry) {
                    Some(unit) => Some(Ok(ValueView::Duration(unit.factor))),
                    None => Some(Err(unknown_identifier(word))),
                },
            }
        },
        ExprView::Now => Some(Ok(ValueView::Duration(scope.now as real))),
        ExprView::Underscore => match scope.last {
            Some(v) => Some(Ok(v)),
            None => Some(Err("No previous value to reference"@)),
        },
        ExprView::UnaryMinus(a) => match eval_at(limit, *a, env, scope) {
            Some(Ok(v)) => Some(negated(v)),
            other => other,
        },
        ExprView::To(a, target) => match eval_at(limit, *a, env, scope) {
            Some(Ok(v)) => Some(Ok(converted(v, target))),
            other => other,
        },
        ExprView::Add(a, b) => pair_at(limit, Operator::Add, *a, *b, env, scope),
        ExprView::Sub(a, b) => pair_at(limit, Operator::Sub, *a, *b, env, scope),
        ExprView::Mul(a, b) => pair_at(limit, Operator::Mul, *a, *b, env, scope),
        ExprView::Div(a, b) => pair_at(limit, Operator::Div, *a, *b, env, scope),
        ExprView::Mod(a, b) => pair_at(limit, Operator::Mod, *a, *b, env, scope),
        ExprView::Apply(a, b) => pair_at(limit, Operator::Apply, *a, *b, env, scope),
    }
}

/// Whether `r` says what `expected` says.
pub open spec fn same_result(r: Result<Value, String>, expected: Result<ValueView, Seq<char>>) -> bool {
    match (r, expected) {
        (Ok(v), Ok(w)) => v@ == w,
        (Err(x), Err(y)) => x@ == y,
        _ => false,
    }
}

/// Whether `r` says what `expected` says.
pub open spec fn same_outcome(r: Option<Result<Value, String>>, expected: Outcome) -> bool {
    match (r, expected) {
        (Some(x), Some(y)) => same_result(x, y),
        (None, None) => true,
        _ => false,
    }
}

/// `v`, to be written as `asked`.
fn wrap(v: Value, asked: Option<ConversionTarget>) -> (r: Value)
    ensures
        r@ == wrapped(
            v@,
            match asked {
                Some(target) => Some(target@),
                None => None,
            },
        ),
{
    match asked {
        Some(target) => Value::Formatted(Box::new(v), target),
        None => v,
    }
}

/// What a result is written like: as its left operand, or else as its right.
fn either(l: Option<ConversionTarget>, r: Option<ConversionTarget>) -> (asked: Option<
    ConversionTarget,
>)
    ensures
        asked == (if l is Some {
            l
        } else {
            r
        }),
{
    match l {
        Some(target) => Some(target),
        None => r,
    }
}

/// Whether a value that nothing is asked of is a text.
fn is_text(v: &Value) -> (r: bool)
    ensures
        r == (v@ is String),
{
    matches!(v, Value::String(_))
}

/// Writes two values one behind the other.
fn concatenate(l: &Value, r: &Value, scope: &Scope) -> (res: Option<Result<Value, String>>)
    ensures
        same_outcome(res, concatenated(l@, r@, scope@)),
{
    let none: ConversionTarget = ConversionTarget::none();
    if !can_format(l, &none, scope.explicit_units, scope.registry) || !can_format(
        r,
        &none,
        scope.explicit_units,
        scope.registry,
    ) {
        return None;
    }
    let mut text: String = format_value(l, &none, scope.explicit_units, scope.registry);
    let right: String = format_value(r, &none, scope.explicit_units, scope.registry);
    text.append(right.as_str());
    let (_, l_req) = l.clone().unwrap();
    let (_, r_req) = r.clone().unwrap();
    Some(Ok(wrap(Value::String(text), either(l_req, r_req))))
}

/// How many of the one unit that it was converted to a duration amounts to.
fn count_in_unit(seconds: &Rational, asked: &Option<ConversionTarget>) -> (r: Option<Rational>)
    ensures
        ({
            let target = match *asked {
                Some(target) => Some(target@),
                None => None,
            };
            match r {
                Some(n) => count_of(seconds@, target) == Some(n@),
                None => count_of(seconds@, target) is None,
            }
        }),
{
    match asked {
        Some(target) => match &target.units {
            Some(units) => {
                if units.len() == 1 {
                    assert(units_view(units@)[0] == units@[0]@);
                    if !units[0].factor.is_zero() {
                        return Some(seconds.divided_by(&units[0].factor));
                    }
                }
                None
            },
            None => None,
        },
        None => None,
    }
}

/// The sum, or the difference.
fn add_or_subtract(a: &Rational, b: &Rational, minus: bool) -> (r: Rational)
    ensures
        r@ == plus_or_minus(a@, b@, minus),
{
    if minus {
        a.minus(b)
    } else {
        a.plus(b)
    }
}

/// The sum or difference of two values that are no texts.
fn sum_values(l: &Value, r: &Value, minus: bool, inference: Option<&Rational>) -> (res: Result<
    Value,
    String,
>)
    ensures
        same_result(
            res,
            sum_of(
                l@,
                r@,
                minus,
                match inference {
                    Some(x) => Some(x@),
                    None => None,
                },
            ),
        ),
{
    let (l_val, l_req) = l.clone().unwrap();
    let (r_val, r_req) = r.clone().unwrap();
    match (l_val, r_val) {
        (Value::Number(a), Value::Number(b)) => Ok(Value::Number(add_or_subtract(&a, &b, minus))),
        (Value::Duration(a), Value::Duration(b)) => Ok(
            Value::Duration(add_or_subtract(&a, &b, minus)),
        ),
        (Value::Duration(a), Value::Number(b)) => match inference {
            Some(unit) => Ok(Value::Duration(add_or_subtract(&a, &b.times(unit), minus))),
            None => match count_in_unit(&a, &l_req) {
                Some(n) => Ok(Value::Number(add_or_subtract(&n, &b, minus))),
                None => Err("Ambiguous unitless number (cannot infer unit)".to_owned()),
            },
        },
        (Value::Number(a), Value::Duration(b)) => match inference {
            Some(unit) => Ok(Value::Duration(add_or_subtract(&a.times(unit), &b, minus))),
            None => match count_in_unit(&b, &r_req) {
                Some(n) => Ok(Value::Number(add_or_subtract(&a, &n, minus))),
                None => Err("Ambiguous unitless number (cannot infer unit)".to_owned()),
            },
        },
        _ => if minus {
            Err("Cannot subtract these types".to_owned())
        } else {
            Err("Cannot add these types".to_owned())
        },
    }
}

/// The product of two values that are no texts.
fn multiply_values(l: &Value, r: &Value) -> (res: Result<Value, String>)
    ensures
        same_result(res, product_of(l@, r@)),
{
    let (l_val, _) = l.clone().unwrap();
    let (r_val, _) = r.clone().unwrap();
    match (l_val, r_val) {
        (Value::Number(a), Value::Number(b)) => Ok(Value::Number(a.times(&b))),
        (Value::Number(a), Value::Duration(b)) => Ok(Value::Duration(a.times(&b))),
        (Value::Duration(b), Value::Number(a)) => Ok(Value::Duration(a.times(&b))),
        _ => Err("Cannot multiply two time durations explicitly".to_owned()),
    }
}

/// The quotient of two values that are no texts.
fn divide_values(l: &Value, r: &Value) -> (res: Result<Value, String>)
    ensures
        same_result(res, quotient_of(l@, r@)),
{
    let (l_val, _) = l.clone().unwrap();
    let (r_val, _) = r.clone().unwrap();
    match (l_val, r_val) {
        (Value::Number(a), Value::Number(b)) => if b.is_zero() {
            Err("Division by zero".to_owned())
        } else {
            Ok(Value::Number(a.divided_by(&b)))
        },
        (Value::Duration(a), Value::Number(b)) => if b.is_zero() {
            Err("Division by zero".to_owned())
        } else {
            Ok(Value::Duration(a.divided_by(&b)))
        },
        (Value::Duration(a), Value::Duration(b)) => if b.is_zero() {
            Err("Division by zero".to_owned())
        } else {
            Ok(Value::Number(a.divided_by(&b)))
        },
        _ => Err("Cannot divide a number by a time duration".to_owned()),
    }
}

/// The remainder of two durations.
fn modulo_durations(a: &Rational, b: &Rational) -> (res: Result<Value, String>)
    ensures
        same_result(res, duration_remainder(a@, b@)),
{
    if b.is_zero() {
        Err("Modulo by zero".to_owned())
    } else {
        Ok(Value::Duration(a.modulo(b)))
    }
}

/// The remainder of two values that are no texts.
fn modulo_values(l: &Value, r: &Value, inference: Option<&Rational>) -> (res: Result<Value, String>)
    ensures
        same_result(
            res,
            remainder_of(
                l@,
                r@,
                match inference {
                    Some(x) => Some(x@),
                    None => None,
                },
            ),
        ),
{
    let (l_val, _) = l.clone().unwrap();
    let (r_val, _) = r.clone().unwrap();
    match (l_val, r_val) {
        (Value::Number(a), Value::Number(b)) => if b.is_zero() {
            Err("Modulo by zero".to_owned())
        } else {
            Ok(Value::Number(a.modulo(&b)))
        },
        (Value::Duration(a), Value::Duration(b)) => modulo_durations(&a, &b),
        (Value::Duration(a), Value::Number(b)) => match inference {
            Some(unit) => modulo_durations(&a, &b.times(unit)),
            None => Err("Ambiguous unitless number (cannot infer unit)".to_owned()),
        },
        (Value::Number(a), Value::Duration(b)) => match inference {
            Some(unit) => modulo_durations(&a.times(unit), &b),
            None => Err("Ambiguous unitless number (cannot infer unit)".to_owned()),
        },
        _ => Err("Cannot modulo these types".to_owned()),
    }
}

/// What an operator of arithmetic makes of two values.
pub fn compute(operator: &Operator, l: &Value, r: &Value, scope: &Scope) -> (res: Option<
    Result<Value, String>,
>)
    ensures
        same_outcome(res, computed(*operator, l@, r@, scope@)),
{
    let (l_val, l_req) = l.clone().unwrap();
    let (r_val, r_req) = r.clone().unwrap();
    if is_text(&l_val) || is_text(&r_val) {
        return match operator {
            Operator::Add => concatenate(l, r, scope),
            Operator::Sub => Some(Err("Cannot subtract strings".to_owned())),
            Operator::Mul => Some(Err("Cannot multiply strings".to_owned())),
            Operator::Div => Some(Err("Cannot divide strings".to_owned())),
            _ => Some(Err("Cannot modulo strings".to_owned())),
        };
    }
    let result: Result<Value, String> = match operator {
        Operator::Add => sum_values(l, r, false, scope.inference_factor),
        Operator::Sub => sum_values(l, r, true, scope.inference_factor),
        Operator::Mul => multiply_values(l, r),
        Operator::Div => divide_values(l, r),
        _ => modulo_values(l, r, scope.inference_factor),
    };
    match result {
        Ok(v) => Some(Ok(wrap(v, either(l_req, r_req)))),
        Err(e) => Some(Err(e)),
    }
}

/// The value with the other sign.
pub fn negate(v: Value) -> (res: Result<Value, String>)
    ensures
        same_result(res, negated(v@)),
{
    proof {
        lemma_bare(v@);
    }
    let (v_val, req) = v.unwrap();
    match v_val {
        Value::Number(x) => Ok(wrap(Value::Number(x.negated()), req)),
        Value::Duration(x) => Ok(wrap(Value::Duration(x.negated()), req)),
        Value::String(_) => Err("Cannot negate a string".to_owned()),
        _ => Err("Cannot negate a function".to_owned()),
    }
}

/// The value converted to `target`.
pub fn convert(v: Value, target: &ConversionTarget) -> (res: Value)
    ensures
        res@ == converted(v@, target@),
{
    let asked: ConversionTarget = target.clone();
    match v {
        Value::Formatted(inner, before) => {
            let dp: Option<i32> = if asked.dp.is_none() {
                before.dp
            } else {
                asked.dp
            };
            if asked.units.is_none() {
                Value::Formatted(
                    inner,
                    ConversionTarget { dp, units: before.units, rounds: before.rounds },
                )
            } else {
                Value::Formatted(
                    inner,
                    ConversionTarget { dp, units: asked.units, rounds: asked.rounds },
                )
            }
        },
        v => Value::Formatted(Box::new(v), asked),
    }
}

/// The value that `word` is bound to.
fn look_up(word: &String, env: &Vec<(String, Value)>) -> (r: Option<Value>)
    ensures
        match r {
            Some(v) => env_view(env@).contains_key(word@) && env_view(env@)[word@] == v@,
            None => !env_view(env@).contains_key(word@),
        },
{
    let mut i: usize = env.len();
    assert(env@.take(i as int) == env@);
    while i > 0
        invariant
            i <= env@.len(),
            env_view(env@.take(i as int)).contains_key(word@) == env_view(env@).contains_key(
                word@,
            ),
            env_view(env@).contains_key(word@) ==> env_view(env@.take(i as int))[word@]
                == env_view(env@)[word@],
        decreases i,
    {
        i = i - 1;
        proof {
            assert(env@.take(i + 1).drop_last() == env@.take(i as int));
            assert(env@.take(i + 1).last() == env@[i as int]);
        }
        if env[i].0 == *word {
            return Some(env[i].1.clone());
        }
    }
    None
}

/// A copy of `env`.
fn copy_env(env: &Vec<(String, Value)>) -> (r: Vec<(String, Value)>)
    ensures
        env_view(r@) == env_view(env@),
{
    let mut r: Vec<(String, Value)> = Vec::new();
    let mut i: usize = 0;
    while i < env.len()
        invariant
            i <= env@.len(),
            env_view(r@) == env_view(env@.take(i as int)),
        decreases env@.len() - i,
    {
        let ghost before = r@;
        r.push((env[i].0.clone(), env[i].1.clone()));
        proof {
            assert(r@.drop_last() == before);
            assert(env@.take(i + 1).drop_last() == env@.take(i as int));
        }
        i = i + 1;
    }
    assert(env@.take(i as int) == env@);
    r
}

/// `env` with each of `names` bound to the value at its place.
fn bind(env: &Vec<(String, Value)>, names: &Vec<String>, values: Vec<Value>) -> (r: Vec<
    (String, Value),
>)
    requires
        names@.len() == values@.len(),
    ensures
        env_view(r@) == bound(env_view(env@), texts(names@), values_view(values@)),
{
    let ghost all_names = texts(names@);
    let ghost all_values = values_view(values@);
    proof {
        lemma_values_view(values@);
    }
    let mut r: Vec<(String, Value)> = copy_env(env);
    let mut i: usize = 0;
    assert(all_names.take(0).len() == 0);
    while i < names.len()
        invariant
            all_names == texts(names@),
            all_values == values_view(values@),
            all_values.len() == values@.len(),
            forall|j: int| 0 <= j < values@.len() ==> #[trigger] all_values[j] == values@[j]@,
            names@.len() == values@.len(),
            i <= names@.len(),
            env_view(r@) == bound(
                env_view(env@),
                all_names.take(i as int),
                all_values.take(i as int),
            ),
        decreases names@.len() - i,
    {
        let ghost before = r@;
        r.push((names[i].clone(), values[i].clone()));
        proof {
            assert(r@.drop_last() == before);
            assert(all_names.take(i + 1).drop_last() == all_names.take(i as int));
            assert(all_values.take(i + 1).drop_last() == all_values.take(i as int));
            assert(all_names.take(i + 1).last() == names@[i as int]@);
            assert(all_values.take(i + 1).last() == all_values[i as int]);
        }
        i = i + 1;
    }
    proof {
        assert(all_names.take(i as int) == all_names);
        assert(all_values.take(i as int) == all_values);
    }
    r
}

/// Where the first function that `word` names stands.
pub fn find_function(word: &str, funcs: &[FuncDef]) -> (r: Option<usize>)
    ensures
        match r {
            Some(i) => i < funcs@.len() && find_func(word@, funcs_view(funcs@)) == Some(
                funcs@[i as int]@,
            ),
            None => find_func(word@, funcs_view(funcs@)) is None,
        },
{
    let ghost all = funcs_view(funcs@);
    let mut i: usize = 0;
    assert(all.skip(0) == all);
    while i < funcs.len()
        invariant
            all == funcs_view(funcs@),
            i <= funcs@.len(),
            find_func(word@, all) == find_func(word@, all.skip(i as int)),
        decreases funcs@.len() - i,
    {
        proof {
            assert(all.skip(i as int)[0] == funcs@[i as int]@);
            assert(all.skip(i as int).skip(1) == all.skip(i + 1));
        }
        if goes_by(word, funcs[i].name.as_str(), &funcs[i].aliases) {
            return Some(i);
        }
        i = i + 1;
    }
    None
}

/// Evaluates a function's body, one call deeper.
fn eval_body(limit: usize, body: &Expr, env: &Vec<(String, Value)>, scope: &Scope) -> (res: Option<
    Result<Value, String>,
>)
    ensures
        same_outcome(res, body_at(limit as nat, body@, env_view(env@), scope@)),
    decreases limit, 0nat,
{
    if limit == 0 {
        None
    } else {
        eval_within(limit - 1, body, env, scope)
    }
}

/// Applies `l` to `r`, where functions may call each other `limit` deep.
pub fn apply_values(
    limit: usize,
    l: &Value,
    r: &Value,
    env: &Vec<(String, Value)>,
    scope: &Scope,
) -> (res: Option<Result<Value, String>>)
    ensures
        same_outcome(res, apply_at(limit as nat, l@, r@, env_view(env@), scope@)),
    decreases limit, 1nat,
{
    let (l_val, l_req) = l.clone().unwrap();
    let (r_val, r_req) = r.clone().unwrap();
    if is_text(&l_val) || is_text(&r_val) {
        return concatenate(l, r, scope);
    }
    let result: Option<Result<Value, String>> = match (l_val, r_val) {
        (Value::Number(a), Value::Number(b)) => Some(Ok(Value::Number(a.times(&b)))),
        (Value::Number(a), Value::Duration(b)) => Some(Ok(Value::Duration(a.times(&b)))),
        (Value::Duration(a), Value::Number(b)) => Some(Ok(Value::Duration(a.times(&b)))),
        (Value::Duration(a), Value::Duration(b)) => Some(Ok(Value::Duration(a.plus(&b)))),
        (Value::Function(f, args), v) => {
            let ghost given = args@;
            let ghost next = v@;
            let mut all: Vec<Value> = args;
            all.push(v);
            proof {
                lemma_values_view(all@);
                assert(all@.drop_last() == given);
                assert(values_view(all@) == values_view(given).push(next));
            }
            if all.len() == f.args.len() {
                let inner: Vec<(String, Value)> = bind(env, &f.args, all);
                eval_body(limit, &f.body, &inner, scope)
            } else {
                Some(Ok(Value::Function(f, all)))
            }
        },
        _ => Some(Err("Invalid function application or juxtaposition".to_owned())),
    };
    match result {
        Some(Ok(v)) => Some(Ok(wrap(v, either(l_req, r_req)))),
        other => other,
    }
}

/// Evaluates two expressions that an operator joins.
fn eval_pair(
    limit: usize,
    operator: Operator,
    a: &Expr,
    b: &Expr,
    env: &Vec<(String, Value)>,
    scope: &Scope,
) -> (res: Option<Result<Value, String>>)
    ensures
        same_outcome(res, pair_at(limit as nat, operator, a@, b@, env_view(env@), scope@)),
    decreases limit, 1 + size(a@) + size(b@),
{
    let l: Value = match eval_within(limit, a, env, scope) {
        Some(Ok(v)) => v,
        other => return other,
    };
    let r: Value = match eval_within(limit, b, env, scope) {
        Some(Ok(v)) => v,
        other => return other,
    };
    match operator {
        Operator::Apply => apply_values(limit, &l, &r, env, scope),
        operator => compute(&operator, &l, &r, scope),
    }
}

/// Evaluates an expression, where functions may call each other `limit` deep.
pub fn eval_within(limit: usize, expr: &Expr, env: &Vec<(String, Value)>, scope: &Scope) -> (res:
    Option<Result<Value, String>>)
    ensures
        same_outcome(res, eval_at(limit as nat, expr@, env_view(env@), scope@)),
    decreases limit, 1 + size(expr@),
{
    match expr {
        Expr::Number(x) => Some(Ok(Value::Number(x.clone()))),
        Expr::Duration(x) => Some(Ok(Value::Duration(x.clone()))),
        Expr::String(s) => Some(Ok(Value::String(s.clone()))),
        Expr::Ident(word) => {
            match look_up(word, env) {
                Some(v) => return Some(Ok(v)),
                None => {},
            }
            match find_function(word.as_str(), scope.funcs) {
                Some(i) => {
                    let f: &FuncDef = &scope.funcs[i];
                    if f.args.len() == 0 {
                        return eval_body(limit, &f.body, env, scope);
                    }
                    let none: Vec<Value> = Vec::new();
                    assert(values_view(none@) == Seq::<ValueView>::empty());
                    return Some(Ok(Value::Function(f.clone(), none)));
                },
                None => {},
            }
            match parse_single_unit(word.as_str(), scope.registry) {
                Ok(unit) => Some(Ok(Value::Duration(unit.factor))),
                Err(_) => {
                    let mut message: String = "Unknown identifier: ".to_owned();
                    message.append(word.as_str());
                    Some(Err(message))
                },
            }
        },
        Expr::Now => Some(Ok(Value::Duration(Rational::from_i64(scope.now as i64)))),
        Expr::Underscore => match scope.last_val {
            Some(v) => Some(Ok(v.clone())),
            None => Some(Err("No previous value to reference".to_owned())),
        },
        Expr::UnaryMinus(a) => match eval_within(limit, a, env, scope) {
            Some(Ok(v)) => Some(negate(v)),
            other => other,
        },
        Expr::To(a, target) => match eval_within(limit, a, env, scope) {
            Some(Ok(v)) => Some(Ok(convert(v, target))),
            other => other,
        },
        Expr::Add(a, b) => eval_pair(limit, Operator::Add, a, b, env, scope),
        Expr::Sub(a, b) => eval_pair(limit, Operator::Sub, a, b, env, scope),
        Expr::Mul(a, b) => eval_pair(limit, Operator::Mul, a, b, env, scope),
        Expr::Div(a, b) => eval_pair(limit, Operator::Div, a, b, env, scope),
        Expr::Mod(a, b) => eval_pair(limit, Operator::Mod, a, b, env, scope),
        Expr::Apply(a, b) => eval_pair(limit, Operator::Apply, a, b, env, scope),
    }
}

/// Letting functions call each other deeper changes no outcome that there is.
pub proof fn law_deeper_agrees(limit: nat, deeper: nat, e: ExprView, env: Env, scope: ScopeView)
    requires
        limit <= deeper,
        eval_at(limit, e, env, scope) is Some,
    ensures
        eval_at(deeper, e, env, scope) == eval_at(limit, e, env, scope),
    decreases limit, 1 + size(e),
{
    match e {
        ExprView::Ident(word) => {
            if !env.contains_key(word) {
                if let Some(f) = find_func(word, scope.funcs) {
                    if f.args.len() == 0 {
                        lemma_deeper_body(limit, deeper, f.body, env, scope);
                    }
                }
            }
        },
        ExprView::UnaryMinus(a) => {
            law_deeper_agrees(limit, deeper, *a, env, scope);
        },
        ExprView::To(a, target) => {
            law_deeper_agrees(limit, deeper, *a, env, scope);
        },
        ExprView::Add(a, b) => {
            lemma_deeper_pair(limit, deeper, Operator::Add, *a, *b, env, scope);
        },
        ExprView::Sub(a, b) => {
            lemma_deeper_pair(limit, deeper, Operator::Sub, *a, *b, env, scope);
        },
        ExprView::Mul(a, b) => {
            lemma_deeper_pair(limit, deeper, Operator::Mul, *a, *b, env, scope);
        },
        ExprView::Div(a, b) => {
            lemma_deeper_pair(limit, deeper, Operator::Div, *a, *b, env, scope);
        },
        ExprView::Mod(a, b) => {
            lemma_deeper_pair(limit, deeper, Operator::Mod, *a, *b, env, scope);
        },
        ExprView::Apply(a, b) => {
            lemma_deeper_pair(limit, deeper, Operator::Apply, *a, *b, env, scope);
        },
        _ => {},
    }
}

/// `law_deeper_agrees` for the body of a function.
proof fn lemma_deeper_body(limit: nat, deeper: nat, body: ExprView, env: Env, scope: ScopeView)
    requires
        limit <= deeper,
        body_at(limit, body, env, scope) is Some,
    ensures
        body_at(deeper, body, env, scope) == body_at(limit, body, env, scope),
    decreases limit, 0nat,
{
    law_deeper_agrees((limit - 1) as nat, (deeper - 1) as nat, body, env, scope);
}

/// `law_deeper_agrees` for the application of a value to another.
proof fn lemma_deeper_apply(
    limit: nat,
    deeper: nat,
    l: ValueView,
    r: ValueView,
    env: Env,
    scope: ScopeView,
)
    requires
        limit <= deeper,
        apply_at(limit, l, r, env, scope) is Some,
    ensures
        apply_at(deeper, l, r, env, scope) == apply_at(limit, l, r, env, scope),
    decreases limit, 1nat,
{
    if let ValueView::Function(f, args) = bare(l) {
        let all = args.push(bare(r));
        if !has_text(l, r) && all.len() == f.args.len() {
            lemma_deeper_body(limit, deeper, f.body, bound(env, f.args, all), scope);
        }
    }
}

/// `law_deeper_agrees` for two expressions that an operator joins.
proof fn lemma_deeper_pair(
    limit: nat,
    deeper: nat,
    operator: Operator,
    a: ExprView,
    b: ExprView,
    env: Env,
    scope: ScopeView,
)
    requires
        limit <= deeper,
        pair_at(limit, operator, a, b, env, scope) is Some,
    ensures
        pair_at(deeper, operator, a, b, env, scope) == pair_at(limit, operator, a, b, env, scope),
    decreases limit, 1 + size(a) + size(b),
{
    law_deeper_agrees(limit, deeper, a, env, scope);
    if let Some(Ok(l)) = eval_at(limit, a, env, scope) {
        law_deeper_agrees(limit, deeper, b, env, scope);
        if let Some(Ok(r)) = eval_at(limit, b, env, scope) {
            if operator is Apply {
                lemma_deeper_apply(limit, deeper, l, r, env, scope);
            }
        }
    }
}

} // verus!
