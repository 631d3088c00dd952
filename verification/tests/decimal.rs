//! Decimals: reading and writing them.

use tea_time::decimal::{format_exact_decimal, parse_decimal, round};
use tea_time::number::{Integer, Rational};

fn ratio(a: i64, b: i64) -> Rational {
    Rational::quotient(Integer::from_i64(a), Integer::from_i64(b))
}

fn reads(s: &str, a: i64, b: i64) {
    match parse_decimal(s) {
        Ok(x) => assert!(x.is_equal(&ratio(a, b)), "`{}` reads as {:?}", s, x),
        Err(e) => panic!("`{}` does not read: {}", s, e),
    }
}

fn writes(x: &Rational, places: i32, text: &str, cut: bool) {
    assert_eq!(format_exact_decimal(x, places), (text.to_string(), cut));
}

#[test]
fn decimals_are_read() {
    reads("1.5", 3, 2);
    reads("-1.25", -5, 4);
    reads("+2", 2, 1);
    reads(" 0.10 ", 1, 10);
    reads(".5", 1, 2);
    reads("5.", 5, 1);
    reads(".", 0, 1);
    reads("-.5", -1, 2);
    reads("007.50", 15, 2);
}

#[test]
fn what_is_no_decimal_is_refused() {
    assert_eq!(parse_decimal("").err().unwrap(), "invalid number");
    assert_eq!(parse_decimal("x").err().unwrap(), "invalid number");
    assert_eq!(parse_decimal("x.5").err().unwrap(), "invalid integer part");
    assert_eq!(parse_decimal("1.x").err().unwrap(), "invalid fractional part");
    assert_eq!(parse_decimal("1.2.3").err().unwrap(), "invalid fractional part");
}

#[test]
fn decimals_are_written() {
    writes(&ratio(1, 3), 2, "0.33", true);
    writes(&ratio(2, 3), 2, "0.67", true);
    writes(&ratio(1, 8), 2, "0.13", true);
    writes(&ratio(1, 2), 3, "0.5", false);
    writes(&ratio(25, 1), 9, "25", false);
    writes(&ratio(0, 1), 9, "0", false);
    writes(&ratio(1, 100), 1, "0", true);
    writes(&ratio(999, 1000), 2, "1", true);
    writes(&ratio(7, 2), 0, "4", true);
    writes(&ratio(7, 2), -1, "3", false);
    writes(&ratio(100, 1), 0, "100", false);
}

#[test]
fn numbers_are_rounded_half_up() {
    assert_eq!(round(&ratio(5, 2)).text(), "3");
    assert_eq!(round(&ratio(49, 20)).text(), "2");
    assert_eq!(round(&ratio(3, 1)).text(), "3");
    assert_eq!(round(&ratio(-5, 2)).text(), "-2");
}

#[test]
fn what_is_written_reads_back() {
    for n in 0..50 {
        for places in 0..4 {
            let x = ratio(n * n, 7);
            let (text, cut) = format_exact_decimal(&x, places);
            let y = parse_decimal(&text).unwrap();
            assert_eq!(cut, !y.is_equal(&x));
            let (again, more) = format_exact_decimal(&y, places);
            assert_eq!(again, text);
            assert!(!more);
        }
    }
}
