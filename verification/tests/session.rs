//! Sessions: lines of input, and what they are answered.

use tea_time::number::Rational;
use tea_time::registry::{default_registry, sort_by_length};
use tea_time::session::{evaluate, evaluate_now, Session};
use tea_time::syntax::{FuncDef, UnitDef, Value};

fn unit(name: &str, seconds: i64, aliases: &[&str]) -> UnitDef {
    UnitDef {
        primary_name: name.to_string(),
        factor: Rational::from_i64(seconds),
        aliases: aliases.iter().map(|a| a.to_string()).collect(),
    }
}

/// Evaluates lines one after the other, with a unit of eight hours beside the usual ones.
fn run_session(inputs_and_expected: &[(&str, &str)]) {
    let registry = sort_by_length(vec![
        unit("d", 86400, &["day", "days"]),
        unit("h", 3600, &["hr", "hrs", "hour", "hours"]),
        unit("m", 60, &["min", "mins", "minute", "minutes"]),
        unit("s", 1, &["sec", "secs", "second", "seconds"]),
        unit("devday", 28800, &["dd", "dev", "devdays", "manday", "mandays"]),
    ]);
    let mut funcs: Vec<FuncDef> = Vec::new();
    let mut last_val: Option<Value> = None;

    for (input, expected) in inputs_and_expected {
        match evaluate(input, last_val.clone(), &registry, &mut funcs) {
            Ok((res, val_opt)) => {
                assert_eq!(res, *expected, "\nFailed on input: `{}`", input);
                if let Some(val) = val_opt {
                    last_val = Some(val);
                }
            }
            Err(e) => {
                assert_eq!(e, *expected, "\nError mismatch on input: `{}`", input);
            }
        }
    }
}

#[test]
fn test_basic_arithmetic_and_aliases() {
    run_session(&[
        ("8h - 1h 30m", "6 h 30 m"),
        ("45m + 45m", "1 h 30 m"),
        ("1h - 90m", "-30 m"),
        ("2h30m - 15m", "2 h 15 m"),
        ("1 manday + 1h", "9 h"), // devday (8h) + 1h = 9h
    ]);
}

#[test]
fn test_unit_inference_and_scalars() {
    run_session(&[
        ("2h + 1", "3 h"),
        ("1.2 * 2", "2.4"),
        ("1h / 3", "20 m"), // division cascades natively to next best unit
        ("2h 3m + 1", "Ambiguous unitless number (cannot infer unit)"),
        ("2h 30m as hour + 1", "3.5"),
    ]);
}

#[test]
fn test_formatting_as_and_to() {
    run_session(&[
        ("(10.2h) as h m s", "10 h 12 m"), // Drops s because there is no remainder
        ("10.3h as h m", "10 h 18 m"),
        ("5 min 2h as hour", "approx. 2.083333333 h"),
        ("46m 58s + 1h 44m to h m", "approx. 2 h 31 m"),
        ("1h / 3 to 2dp as h", "approx. 0.33 h"), 
    ]);
}

#[test]
fn test_rounding_precision() {
    run_session(&[
        ("1.44442423h to 3 decimal", "approx. 1.444 h"),
        ("1.44442423h to 3 dp", "approx. 1.444 h"),
        ("1.333h to hour", "1 h"),
        ("1.567h to hour", "2 h"),
        ("0.02 to 1dp", "approx. 0"),
        ("0.02 to 1 dp", "approx. 0"), 
        ("1h 1.1m to 0dp", "approx. 1 h 1 m"),
    ]);
}

#[test]
fn test_strings_and_concatenation() {
    run_session(&[
        ("\"Some text\"", "Some text"),
        ("\"Some\" + \" text\"", "Some text"),
        ("\"Some\" ' ' \"text\"", "Some text"), 
        ("1d 1h", "1 d 1 h"),
        ("1d 1h + \"xyz\"", "1 d 1 hxyz"),
        ("1d 1h to h", "25 h"),
        ("(1d 1h to h) 'foo'", "25 hfoo"),
        ("1/3 'bar'", "approx. 0.333333333bar"),
        ("0.11 '%'", "0.11%"),
        ("0.11 to 1dp '%'", "approx. 0.1%"),
    ]);
}

#[test]
fn test_history_and_modulo() {
    run_session(&[
        ("1h % 30m", "0 s"),
        ("1h % 40m", "20 m"),
        ("1h + 30m", "1 h 30 m"),
        ("_ + 5s", "1 h 30 m 5 s"),
    ]);
}

#[test]
fn test_functions_and_currying() {
    run_session(&[
        ("add a b := a + b", ""),
        ("add 1 2", "3"),
        ("red b := add 1", ""),
        ("red 2", "<function add>"), // Curried function evaluation 
        ("test x := x to 0dp", ""),
        ("test 1", "1"),
        ("test 1.1", "approx. 1"),
        ("test 1.8", "approx. 2"),
        ("dev est tru := (tru - est)/est * 100 to 2 decimal '%'", ""),
        ("dev 3d6h 5d30m", "approx. 54.49%"),
        ("1d add a := a*2", "Invalid function definition: left side must be identifiers"),
    ]);
}

#[test]
fn test_space_associativity() {
    run_session(&[
        ("ident a := a", ""),
        ("ident 5h30m", "5 h 30 m"),
        ("ident 5h 30m", "5 h 30 m"),
    ]);
}

#[test]
fn lines_that_are_entered_set_the_last_value() {
    let mut session = Session::new(default_registry(), Vec::new());
    assert_eq!(session.submit("1h + 30m"), Some(Some("1 h 30 m".to_string())));
    assert_eq!(session.preview("2h"), Some(Some("2 h".to_string())));
    assert_eq!(session.submit("_"), Some(Some("1 h 30 m".to_string())));
    assert_eq!(session.submit("_ * 2"), Some(Some("3 h".to_string())));
    assert_eq!(session.submit("oops"), Some(None));
    assert_eq!(session.submit(""), Some(None));
    assert_eq!(session.submit("f x := x"), Some(None));
    assert_eq!(session.submit("_"), Some(Some("3 h".to_string())));
    assert_eq!(session.submit("f 2"), Some(Some("2".to_string())));
}

#[test]
fn a_preview_defines_functions_but_keeps_the_last_value() {
    let mut session = Session::new(default_registry(), Vec::new());
    assert_eq!(session.preview("f x := x + 1"), Some(None));
    assert_eq!(session.funcs.len(), 1);
    assert_eq!(session.preview("f 1"), Some(Some("2".to_string())));
    assert!(session.last_value.is_none());
    assert_eq!(session.enter_within(0, 0, "f 1", false), None);
    assert_eq!(session.enter_within(1, 0, "f 1", false), Some(Some("2".to_string())));
    assert!(session.last_value.is_some());
}

#[test]
fn the_clock_reads_less_than_a_day() {
    let mut session = Session::new(default_registry(), Vec::new());
    assert_eq!(session.submit("now % 1d - now"), Some(Some("0 s".to_string())));
}

#[test]
fn a_line_without_an_answer_is_told_from_one_that_is_refused() {
    let registry = default_registry();
    let mut funcs: Vec<FuncDef> = Vec::new();
    match evaluate_now("1h + 1m", None, &registry, &mut funcs) {
        Some(Ok((text, Some(_)))) => assert_eq!(text, "1 h 1 m"),
        other => panic!("{:?}", other),
    }
    match evaluate_now("1 +", None, &registry, &mut funcs) {
        Some(Err(e)) => assert_eq!(e, "Unexpected end of expression"),
        other => panic!("{:?}", other),
    }
    assert!(evaluate_now("1h", None, &[], &mut funcs).is_some());
    assert!(evaluate_now("h", None, &registry[1..2], &mut funcs).is_none());
}
