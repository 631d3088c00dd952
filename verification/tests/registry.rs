//! The units and functions that there are from the start.

use tea_time::number::Rational;
use tea_time::registry::{
    build_registry, build_registry_within, default_registry, sort_by_length, Config,
    CustomUnitConfig, FuncConfig,
};
use tea_time::session::evaluate_within;
use tea_time::syntax::{FuncDef, UnitDef};

fn unit(name: &str, aliases: &[&str], value: &str) -> CustomUnitConfig {
    CustomUnitConfig {
        name: name.to_string(),
        aliases: aliases.iter().map(|a| a.to_string()).collect(),
        value: value.to_string(),
    }
}

fn function(name: &str, aliases: &[&str], arguments: &[&str], definition: &str) -> FuncConfig {
    FuncConfig {
        name: name.to_string(),
        aliases: aliases.iter().map(|a| a.to_string()).collect(),
        arguments: arguments.iter().map(|a| a.to_string()).collect(),
        definition: definition.to_string(),
    }
}

fn names(registry: &[UnitDef]) -> Vec<&str> {
    registry.iter().map(|u| u.primary_name.as_str()).collect()
}

fn answer(line: &str, registry: &[UnitDef], funcs: &mut Vec<FuncDef>) -> String {
    match evaluate_within(100, 0, line, None, registry, funcs) {
        Some(Ok((text, _))) => text,
        Some(Err(e)) => e,
        None => "no answer".to_string(),
    }
}

#[test]
fn days_hours_minutes_and_seconds_are_there() {
    let config = Config { units: vec![], functions: vec![] };
    let (registry, funcs) = build_registry(&config).unwrap();
    assert_eq!(names(&registry), ["d", "h", "m", "s"]);
    assert_eq!(registry[1].aliases, ["hr", "hrs", "hour", "hours"]);
    assert!(registry[0].factor.is_equal(&Rational::from_i64(86400)));
    assert!(registry[3].factor.is_equal(&Rational::from_i64(1)));
    assert!(funcs.is_empty());
}

#[test]
fn the_configuration_adds_units_and_functions() {
    let config = Config {
        units: vec![
            unit("manday", &["md", "devday", "dd", "mandays"], "8h"),
            unit("week", &[], "5 manday"),
        ],
        functions: vec![function(
            "example",
            &["ex", "e"],
            &["argone", "argtwo"],
            "1d 3m + argone - argtwo",
        )],
    };
    let (registry, mut funcs) = build_registry_within(100, 0, &config).unwrap();
    assert_eq!(names(&registry), ["week", "d", "manday", "h", "m", "s"]);
    assert_eq!(answer("1 dd + 1h", &registry, &mut funcs), "9 h");
    assert_eq!(answer("1 week as h", &registry, &mut funcs), "40 h");
    assert_eq!(answer("example 2h 1h", &registry, &mut funcs), "1 d 1 h 3 m");
    assert_eq!(answer("EX 2h 1h", &registry, &mut funcs), "1 d 1 h 3 m");
}

#[test]
fn what_is_no_duration_or_expression_is_left_out() {
    let config = Config {
        units: vec![
            unit("number", &[], "5"),
            unit("broken", &[], "5 +"),
            unit("unknown", &[], "2 fortnight"),
            unit("fine", &[], "2h to m"),
            unit("empty", &[], ""),
        ],
        functions: vec![
            function("bad", &[], &["x"], "x +"),
            function("worse", &[], &[], ";"),
            function("left", &[], &[], "1 )"),
            function("good", &[], &["x"], "x fine"),
        ],
    };
    let (registry, mut funcs) = build_registry_within(100, 0, &config).unwrap();
    assert_eq!(names(&registry), ["d", "fine", "h", "m", "s"]);
    assert_eq!(funcs.len(), 1);
    assert_eq!(answer("good 3", &registry, &mut funcs), "6 h");
}

#[test]
fn a_unit_may_define_a_function() {
    let config = Config {
        units: vec![unit("x", &[], "twice a := a * 2"), unit("long", &[], "twice 1d")],
        functions: vec![],
    };
    let (registry, funcs) = build_registry_within(100, 0, &config).unwrap();
    assert_eq!(names(&registry), ["long", "d", "h", "m", "s"]);
    assert_eq!(funcs[0].name, "twice");
}

#[test]
fn a_unit_without_an_answer_leaves_no_registry() {
    let config = Config {
        units: vec![unit("x", &[], "f := f"), unit("y", &[], "f")],
        functions: vec![],
    };
    assert!(build_registry_within(50, 0, &config).is_none());
}

#[test]
fn a_unit_may_be_measured_by_the_clock() {
    let config = Config { units: vec![unit("sofar", &[], "now")], functions: vec![] };
    let (registry, _) = build_registry_within(10, 7200, &config).unwrap();
    assert_eq!(names(&registry), ["d", "sofar", "h", "m", "s"]);
    let (registry, _) = build_registry(&config).unwrap();
    assert_eq!(registry.len(), 5);
}

#[test]
fn units_are_sorted_and_units_of_one_length_keep_their_order() {
    let of = |name: &str, seconds: i64| UnitDef {
        primary_name: name.to_string(),
        factor: Rational::from_i64(seconds),
        aliases: vec![],
    };
    let sorted = sort_by_length(vec![
        of("a", 2),
        of("b", 5),
        of("c", 2),
        of("d", 9),
        of("e", 5),
        of("f", -1),
        of("g", 2),
    ]);
    assert_eq!(names(&sorted), ["d", "b", "e", "a", "c", "g", "f"]);
    let again = sort_by_length(sorted);
    assert_eq!(names(&again), ["d", "b", "e", "a", "c", "g", "f"]);
    assert_eq!(names(&sort_by_length(default_registry())), ["d", "h", "m", "s"]);
}

#[test]
fn parameters_may_end_in_a_number() {
    let config = Config {
        units: vec![],
        functions: vec![
            function("example", &["ex", "e"], &["arg1", "arg2"], "1d 3m + arg1 - arg2"),
            function("twice", &[], &["arg1"], "2arg1 + 'arg1'"),
            function("odd", &[], &["arg1"], "arg01 + arg1.0 + arg1x"),
        ],
    };
    let (registry, mut funcs) = build_registry_within(100, 0, &config).unwrap();
    assert_eq!(answer("example 2h 1h", &registry, &mut funcs), "1 d 1 h 3 m");
    assert_eq!(answer("e 1h 2h", &registry, &mut funcs), "23 h 3 m");
    assert_eq!(answer("twice 4", &registry, &mut funcs), "8arg1");
    assert_eq!(answer("odd 4", &registry, &mut funcs), "Unknown identifier: arg");
}

#[test]
fn other_names_of_parameters_change_no_definition() {
    let config = Config {
        units: vec![],
        functions: vec![
            function("duration", &[], &["2h"], "2h + 1h"),
            function("sum", &[], &["a", "b", "a+b"], "a+b"),
            function("word", &[], &["a", "a2"], "a2 + 1"),
            function("unit", &[], &["h30"], "5h30 - h30"),
            function("call", &[], &["word2"], "word2 3"),
            function("target", &[], &["to1"], "1.25 to1dp"),
        ],
    };
    let (registry, mut funcs) = build_registry_within(100, 0, &config).unwrap();
    assert_eq!(answer("duration 7", &registry, &mut funcs), "3 h");
    assert_eq!(answer("sum 1 2 9", &registry, &mut funcs), "3");
    assert_eq!(answer("word 10 5", &registry, &mut funcs), "21");
    assert_eq!(answer("unit 1", &registry, &mut funcs), "5 d");
    assert_eq!(answer("call 0", &registry, &mut funcs), "5");
    assert_eq!(answer("target 1", &registry, &mut funcs), "approx. 1.3");
}
