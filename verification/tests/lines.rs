//! Lines of input, and what they are answered at a given time of day.

use tea_time::registry::default_registry;
use tea_time::session::evaluate_within;
use tea_time::syntax::{FuncDef, Value};

const NOON: u32 = 43200;

/// Evaluates lines one after the other, and compares what each is answered.
fn run(lines: &[(&str, &str)]) {
    let registry = default_registry();
    let mut funcs: Vec<FuncDef> = Vec::new();
    let mut last: Option<Value> = None;
    for (input, expected) in lines {
        match evaluate_within(100, NOON, input, last.clone(), &registry, &mut funcs) {
            Some(Ok((text, value))) => {
                assert_eq!(text, *expected, "`{}`", input);
                if value.is_some() {
                    last = value;
                }
            }
            Some(Err(e)) => assert_eq!(e, *expected, "`{}`", input),
            None => assert_eq!("no answer", *expected, "`{}`", input),
        }
    }
}

#[test]
fn an_afternoon_of_calculations() {
    run(&[
        ("1d 1h + 4h 3m", "1 d 5 h 3 m"),
        ("now", "12 h"),
        ("now to m", "720 m"),
        ("now + 1h 2s to h m", "approx. 13 h"),
        ("1.2h % 15m", "12 m"),
        ("1h / 3 to 2dp", "approx. 0.33 h"),
        ("func a b := a + b", ""),
        ("func 1d 3h", "1 d 3 h"),
        ("curry := func 1d", ""),
        ("curry 3h", "1 d 3 h"),
        ("_ + 1h", "1 d 4 h"),
    ]);
}

#[test]
fn empty_lines_are_zero() {
    run(&[("", ""), ("   ", ""), ("_", "0")]);
}

#[test]
fn nothing_was_there_before_the_first_line() {
    run(&[("_", "No previous value to reference"), ("3h", "3 h"), ("_", "3 h"), ("_ * 2", "6 h")]);
}

#[test]
fn what_cannot_be_parsed_is_refused() {
    run(&[
        ("1 +", "Unexpected end of expression"),
        ("(1", "Missing closing parenthesis"),
        ("1)", "Incomplete expression"),
        ("to h", "Unexpected syntax token: To"),
        ("as h", "Unexpected syntax token: To"),
        ("* 2", "Unexpected syntax token: Multiply"),
        ("/ 2", "Unexpected syntax token: Divide"),
        ("% 2", "Unexpected syntax token: Modulo"),
        (") 2", "Unexpected syntax token: RParen"),
        ("f := := 2", "Unexpected syntax token: Assign"),
        ("1h to", "Missing target after 'to'"),
        ("1h to 5", "Invalid conversion target"),
        ("1h to x", "Invalid conversion target"),
        ("1 = 2", "Unexpected character: '='"),
    ]);
}

#[test]
fn what_has_no_value_is_refused() {
    run(&[
        ("foo", "Unknown identifier: foo"),
        ("1 / 0", "Division by zero"),
        ("1h / 0", "Division by zero"),
        ("1h / 0h", "Division by zero"),
        ("1 / 1h", "Cannot divide a number by a time duration"),
        ("1 % 0", "Modulo by zero"),
        ("1h % 0m", "Modulo by zero"),
        ("1h % 0", "Modulo by zero"),
        ("1h 1m % 3", "Ambiguous unitless number (cannot infer unit)"),
        ("3 % 1h 1m", "Ambiguous unitless number (cannot infer unit)"),
        ("1h 1m + 3", "Ambiguous unitless number (cannot infer unit)"),
        ("3 - 1h 1m", "Ambiguous unitless number (cannot infer unit)"),
        ("1h * 1h", "Cannot multiply two time durations explicitly"),
        ("'a' * 2", "Cannot multiply strings"),
        ("'a' - 1", "Cannot subtract strings"),
        ("'a' / 2", "Cannot divide strings"),
        ("'a' % 2", "Cannot modulo strings"),
        ("-'a'", "Cannot negate a string"),
        ("f x := x", ""),
        ("-f", "Cannot negate a function"),
        ("f + f", "Cannot add these types"),
        ("f - 1", "Cannot subtract these types"),
        ("f * 2", "Cannot multiply two time durations explicitly"),
        ("f / 2", "Cannot divide a number by a time duration"),
        ("f % 2", "Cannot modulo these types"),
        ("2 f", "Invalid function application or juxtaposition"),
    ]);
}

#[test]
fn definitions_have_a_name_and_a_body() {
    run(&[
        (":= 1", "Missing function name"),
        ("a :=", "Unexpected end of expression"),
        ("a := 1 )", "Incomplete expression in function body"),
        ("1 := 2", "Invalid function definition: left side must be identifiers"),
        ("a b 'c' := 2", "Invalid function definition: left side must be identifiers"),
        ("a := 2", ""),
        ("a + 1", "3"),
        ("a := 5", ""),
        ("A + 1", "6"),
        ("Once := 1", ""),
        ("once := 2", ""),
        ("once", "1"),
    ]);
}

#[test]
fn numbers_are_written_with_their_decimals() {
    run(&[
        ("10 to 2dp", "10"),
        ("1/3 to 0dp", "approx. 0"),
        ("2/3 to 0 decimal", "approx. 1"),
        ("-1/3 to 2dp", "approx. -0.33"),
        ("1/8 to 2dp", "approx. 0.13"),
        ("1/3", "approx. 0.333333333"),
        ("-1/3", "approx. -0.333333333"),
        ("1/7 to 20dp", "approx. 0.14285714285714285714"),
        ("3.7 to 99999999999 dp", "approx. 4"),
        (".5", "0.5"),
        ("5.", "5"),
    ]);
}

#[test]
fn durations_are_written_in_units() {
    run(&[
        ("1h 30m 1.5s", "approx. 1 h 30 m 2 s"),
        ("0.4s", "approx. 0 s"),
        ("0.5s", "approx. 1 s"),
        ("-0.5s", "approx. -1 s"),
        ("1h - 1.5h", "-30 m"),
        ("0h", "0 s"),
        ("1h to d h", "1 h"),
        ("1h to m s", "60 m"),
        ("90s to m", "1.5 m"),
        ("1h to s", "3600 s"),
        ("5400s as h", "1.5 h"),
        ("1.5h to h", "2 h"),
        ("1.5h as h", "1.5 h"),
        ("1.5h to hours", "2 h"),
        ("90m to 1dp", "1 h 30 m"),
        ("1h 20s to 2dp as m", "approx. 60.33 m"),
        ("1h as m to 1dp", "60 m"),
        ("25h", "1 d 1 h"),
        ("(1h to m) + 30m", "90 m"),
        ("30m + (1h to m)", "90 m"),
    ]);
}

#[test]
fn operators_bind_from_left_to_right_and_by_rank() {
    run(&[
        ("1 + 2 * 3", "7"),
        ("2 * 3 + 1", "7"),
        ("8 / 2 / 2", "2"),
        ("8 - 2 - 2", "4"),
        ("10 % 4 * 2", "4"),
        ("2 * -3", "-6"),
        ("--3", "3"),
        ("-+3", "-3"),
        ("2(3)", "6"),
        ("(1+2)(3+4)", "21"),
        ("2 3h", "6 h"),
        ("2h 3", "6 h"),
        ("1h 2h", "3 h"),
    ]);
}

#[test]
fn a_bare_number_counts_in_the_unit_of_the_line() {
    run(&[
        ("2h + 1", "3 h"),
        ("1 + 2h", "3 h"),
        ("2h - 1", "1 h"),
        ("1 - 2h", "-1 h"),
        ("7h % 2", "1 h"),
        ("7 % 2h", "1 h"),
        ("h", "1 h"),
        ("d + 1", "2 d"),
        ("1h 1m as m + 1", "62"),
        ("1 + (1h 1m as h)", "approx. 2.016666667"),
        ("2h 30m as hour - 1", "1.5"),
        ("9 - (2h 30m as hour)", "6.5"),
    ]);
}

#[test]
fn texts_are_appended() {
    run(&[
        ("'a' + 'b'", "ab"),
        ("1 + 'b'", "1b"),
        ("'a' 1h", "a1 h"),
        ("'a' 'b' 'c'", "abc"),
        ("f x := x", ""),
        ("'is ' + f", "is <function f>"),
        ("f 'x'", "<function f>x"),
    ]);
}

#[test]
fn functions_take_their_arguments_one_by_one() {
    run(&[
        ("sum a b c := a + b + c", ""),
        ("sum", "<function sum>"),
        ("sum 1", "<function sum>"),
        ("sum 1 2", "<function sum>"),
        ("sum 1 2 3", "6"),
        ("part := sum 1 2", ""),
        ("part 3", "6"),
        ("(sum 1) 2 3", "6"),
        ("sum 1 2 3 4", "24"),
        ("half x := x / 2", ""),
        ("half (half 8h)", "2 h"),
    ]);
}

#[test]
fn endless_functions_have_no_answer() {
    run(&[
        ("loop x := loop x", ""),
        ("loop 1", "no answer"),
        ("ping := pong", ""),
        ("pong := ping", ""),
        ("ping", "no answer"),
        ("1 + 1", "2"),
    ]);
}

#[test]
fn deeper_calls_change_no_answer() {
    let registry = default_registry();
    let mut funcs: Vec<FuncDef> = Vec::new();
    for line in ["a x := x + 1", "b x := a (a x)", "c x := b (b x)"] {
        assert!(matches!(
            evaluate_within(0, NOON, line, None, &registry, &mut funcs),
            Some(Ok(_))
        ));
    }
    assert!(evaluate_within(2, NOON, "c 1", None, &registry, &mut funcs).is_none());
    for limit in 3..10 {
        match evaluate_within(limit, NOON, "c 1", None, &registry, &mut funcs) {
            Some(Ok((text, _))) => assert_eq!(text, "5"),
            _ => panic!("no answer at {}", limit),
        }
    }
}

#[test]
fn only_definitions_change_the_functions() {
    let registry = default_registry();
    let mut funcs: Vec<FuncDef> = Vec::new();
    for (line, count) in [("f x := x", 1), ("f 1", 1), ("f +", 1), ("g := 1", 2), ("f a := 2", 2)] {
        let _ = evaluate_within(10, NOON, line, None, &registry, &mut funcs);
        assert_eq!(funcs.len(), count, "`{}`", line);
    }
    assert_eq!(funcs[0].name, "g");
    assert_eq!(funcs[1].name, "f");
    assert_eq!(funcs[1].args, ["a"]);
}

#[test]
fn the_time_of_day_matters_only_to_now() {
    let registry = default_registry();
    let mut funcs: Vec<FuncDef> = Vec::new();
    for now in [0, 1, 3661, 86399] {
        match evaluate_within(10, now, "1h + 1m", None, &registry, &mut funcs) {
            Some(Ok((text, _))) => assert_eq!(text, "1 h 1 m"),
            _ => panic!("no answer"),
        }
    }
    match evaluate_within(10, 3661, "now", None, &registry, &mut funcs) {
        Some(Ok((text, _))) => assert_eq!(text, "1 h 1 m 1 s"),
        _ => panic!("no answer"),
    }
}

#[test]
fn what_was_written_can_be_entered_again() {
    run(&[
        ("100000s", "1 d 3 h 46 m 40 s"),
        ("1 d 3 h 46 m 40 s", "1 d 3 h 46 m 40 s"),
        ("_ - 100000s", "0 s"),
        ("-22/8", "-2.75"),
        ("-2.75", "-2.75"),
        ("0 s", "0 s"),
        ("1h - 90m", "-30 m"),
        ("-30 m", "-30 m"),
        ("-1 h 30 m", "-30 m"),
    ]);
}

#[test]
fn units_that_measure_nothing_have_no_answer() {
    let mut registry = default_registry();
    let mut funcs: Vec<FuncDef> = Vec::new();
    let mut nothing = default_registry().remove(0);
    nothing.primary_name = "nil".to_string();
    nothing.aliases = Vec::new();
    nothing.factor = tea_time::number::Rational::from_i64(0);
    registry.push(nothing);
    assert!(evaluate_within(10, 0, "1h to nil", None, &registry, &mut funcs).is_none());
    registry.remove(0);
    assert!(evaluate_within(10, 0, "1h", None, &registry, &mut funcs).is_none());
    assert!(evaluate_within(10, 0, "1 + 1", None, &registry, &mut funcs).is_some());
}

#[test]
fn the_clock_can_be_read_in_other_units() {
    let registry = default_registry();
    let mut funcs: Vec<FuncDef> = Vec::new();
    for (line, expected) in [
        ("now", "13 h 15 m 2 s"),
        ("now to m", "approx. 795.033333333 m"),
        ("now to h m", "approx. 13 h 15 m"),
    ] {
        match evaluate_within(10, 47702, line, None, &registry, &mut funcs) {
            Some(Ok((text, _))) => assert_eq!(text, expected),
            _ => panic!("no answer"),
        }
    }
}
