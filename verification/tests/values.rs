//! Values, what operators make of them, and how they are written.

use tea_time::eval::{compute, convert, negate, Scope};
use tea_time::format::{can_format, format_value};
use tea_time::number::{Integer, Rational};
use tea_time::parser::Operator;
use tea_time::registry::default_registry;
use tea_time::syntax::{ConversionTarget, FormatUnit, UnitDef, Value};

fn ratio(a: i64, b: i64) -> Rational {
    Rational::quotient(Integer::from_i64(a), Integer::from_i64(b))
}

fn seconds(n: i64) -> Value {
    Value::Duration(Rational::from_i64(n))
}

fn number(n: i64) -> Value {
    Value::Number(Rational::from_i64(n))
}

fn hours() -> FormatUnit {
    FormatUnit { name: "h".to_string(), factor: Rational::from_i64(3600) }
}

fn written(v: &Value, registry: &[UnitDef]) -> String {
    let none = ConversionTarget::none();
    assert!(can_format(v, &none, &[], registry));
    format_value(v, &none, &[], registry)
}

fn computed(operator: Operator, l: &Value, r: &Value, inference: Option<&Rational>) -> Value {
    let registry = default_registry();
    let scope = Scope {
        registry: &registry,
        funcs: &[],
        last_val: None,
        inference_factor: inference,
        explicit_units: &[],
        now: 0,
    };
    match compute(&operator, l, r, &scope) {
        Some(Ok(v)) => v,
        other => panic!("{:?}", other),
    }
}

fn target(dp: Option<i32>, units: Option<Vec<FormatUnit>>) -> ConversionTarget {
    ConversionTarget { dp, units, rounds: false }
}

#[test]
fn minus_undoes_plus() {
    let registry = default_registry();
    let sum = computed(Operator::Add, &seconds(5000), &seconds(70), None);
    assert_eq!(written(&sum, &registry), "1 h 24 m 30 s");
    let back = computed(Operator::Sub, &sum, &seconds(70), None);
    assert_eq!(written(&back, &registry), "1 h 23 m 20 s");
}

#[test]
fn times_undoes_division() {
    let registry = default_registry();
    let part = computed(Operator::Div, &seconds(100), &number(7), None);
    let back = computed(Operator::Mul, &part, &number(7), None);
    assert_eq!(written(&back, &registry), "1 m 40 s");
}

#[test]
fn a_bare_number_counts_in_the_inferred_unit() {
    let registry = default_registry();
    let hour = Rational::from_i64(3600);
    for (operator, text) in
        [(Operator::Add, "2 h 30 m"), (Operator::Sub, "30 m"), (Operator::Mod, "30 m")]
    {
        let v = computed(operator, &seconds(5400), &number(1), Some(&hour));
        assert_eq!(written(&v, &registry), text);
    }
}

#[test]
fn negating_twice_gives_back_the_value() {
    let registry = default_registry();
    let v = convert(seconds(5400), &target(None, Some(vec![hours()])));
    let once = negate(v).unwrap();
    assert_eq!(written(&once, &registry), "-1.5 h");
    assert_eq!(written(&negate(once).unwrap(), &registry), "1.5 h");
}

#[test]
fn a_later_conversion_keeps_what_it_leaves_open() {
    let registry = default_registry();
    let v = Value::Duration(ratio(10000, 3));
    let first = convert(v, &target(Some(2), None));
    let both = convert(first, &target(None, Some(vec![hours()])));
    assert_eq!(written(&both, &registry), "approx. 0.93 h");
    let third = convert(both, &target(Some(1), None));
    assert_eq!(written(&third, &registry), "approx. 0.9 h");
    let (bare, asked) = third.unwrap();
    assert!(matches!(bare, Value::Duration(x) if x.is_equal(&ratio(10000, 3))));
    assert_eq!(asked.unwrap().dp, Some(1));
}

#[test]
fn a_target_that_asks_for_nothing_is_empty() {
    assert!(ConversionTarget::none().is_empty());
    assert!(!target(Some(0), None).is_empty());
    assert!(!target(None, Some(vec![hours()])).is_empty());
}

#[test]
fn what_is_asked_for_at_the_top_comes_first() {
    let registry = default_registry();
    let v = convert(seconds(5000), &target(Some(1), Some(vec![hours()])));
    let top = target(Some(3), Some(vec![hours()]));
    assert_eq!(format_value(&v, &top, &[], &registry), "approx. 1.389 h");
    assert_eq!(written(&v, &registry), "approx. 1.4 h");
}

#[test]
fn a_duration_needs_units_that_can_measure_it() {
    let none = ConversionTarget::none();
    assert!(!can_format(&seconds(1), &none, &[], &[]));
    assert!(can_format(&number(1), &none, &[], &[]));
    let nil = FormatUnit { name: "nil".to_string(), factor: Rational::from_i64(0) };
    let asked = target(None, Some(vec![nil]));
    assert!(!can_format(&seconds(1), &asked, &[], &default_registry()));
}

#[test]
fn texts_beside_values_are_appended() {
    let registry = default_registry();
    let v = computed(Operator::Add, &Value::String("t = ".to_string()), &seconds(60), None);
    assert_eq!(written(&v, &registry), "t = 1 m");
}
