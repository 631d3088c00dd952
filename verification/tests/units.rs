//! Units, and durations formed of numbers and units.

use tea_time::lexer::tokenize;
use tea_time::number::Rational;
use tea_time::registry::default_registry;
use tea_time::syntax::{FormatUnit, Token};
use tea_time::units::{combine_contiguous_durations, form_durations, parse_single_unit};

fn seconds(tokens: &[Token]) -> Vec<Option<String>> {
    tokens
        .iter()
        .map(|t| match t {
            Token::Duration(x) => Some(x.to_integer().text()),
            _ => None,
        })
        .collect()
}

#[test]
fn units_are_found_by_any_of_their_names() {
    let registry = default_registry();
    let hour = parse_single_unit("h", &registry).unwrap();
    assert_eq!(hour.name, "h");
    assert!(hour.factor.is_equal(&Rational::from_i64(3600)));
    let (length, name) = hour.info();
    assert!(length.is_equal(&Rational::from_i64(3600)));
    assert_eq!(name, "h");
    assert_eq!(parse_single_unit("minutes", &registry).unwrap().name, "m");
    assert_eq!(parse_single_unit("DAYS", &registry).unwrap().name, "d");
    assert_eq!(parse_single_unit("Sec", &registry).unwrap().name, "s");
}

#[test]
fn other_words_name_no_unit() {
    let registry = default_registry();
    assert_eq!(parse_single_unit("week", &registry).err().unwrap(), "Unknown unit: 'week'");
}

#[test]
fn numbers_with_units_form_durations() {
    let registry = default_registry();
    let tokens = tokenize("2h 30 min + 5 x 1h").unwrap();
    let (formed, units) = form_durations(tokens, &registry);
    assert_eq!(
        seconds(&formed),
        [
            Some("7200".to_string()),
            None,
            Some("1800".to_string()),
            None,
            None,
            None,
            None,
            None,
            Some("3600".to_string())
        ]
    );
    let names: Vec<&str> = units.iter().map(|u: &FormatUnit| u.name.as_str()).collect();
    assert_eq!(names, ["h", "m"]);
}

#[test]
fn durations_side_by_side_are_added_up() {
    let registry = default_registry();
    let (formed, _) = form_durations(tokenize("2h30m15s + 1m").unwrap(), &registry);
    let rows = combine_contiguous_durations(formed);
    assert_eq!(
        seconds(&rows),
        [Some("9015".to_string()), None, Some("60".to_string())]
    );
}
