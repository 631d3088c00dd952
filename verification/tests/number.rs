//! Integers and rational numbers.

use tea_time::number::{Integer, Rational};

fn ratio(a: i64, b: i64) -> Rational {
    Rational::quotient(Integer::from_i64(a), Integer::from_i64(b))
}

fn is(x: &Rational, a: i64, b: i64) -> bool {
    x.is_equal(&ratio(a, b))
}

#[test]
fn integers_are_read_and_written() {
    let n = Integer::parse("-120").unwrap();
    assert_eq!(n.text(), "-120");
    assert_eq!(Integer::parse("+7").unwrap().text(), "7");
    assert_eq!(Integer::parse("1_000").unwrap().text(), "1000");
    assert_eq!(Integer::from_i64(-1).text(), "-1");
    assert!(Integer::parse("").is_none());
    assert!(Integer::parse("-").is_none());
    assert!(Integer::parse("_1").is_none());
    assert!(Integer::parse("-+1").is_none());
    assert!(Integer::parse("++1").is_none());
    assert!(Integer::parse("1.0").is_none());
}

#[test]
fn integers_are_exact_beyond_machine_words() {
    let ten = Integer::from_i64(10);
    let big = ten.to_power(30);
    assert_eq!(big.text(), "1000000000000000000000000000000");
    assert_eq!(big.plus(&Integer::from_i64(1)).text(), "1000000000000000000000000000001");
    assert_eq!(Integer::from_i64(7).times(&ten).text(), "70");
    assert_eq!(ten.to_power(0).text(), "1");
    assert_eq!(big.as_i32(), None);
    assert_eq!(Integer::from_i64(-2147483648).as_i32(), Some(-2147483648));
    assert_eq!(Integer::from_i64(2147483648).as_i32(), None);
}

#[test]
fn rationals_are_exact() {
    assert!(is(&ratio(1, 3).plus(&ratio(1, 6)), 1, 2));
    assert!(is(&ratio(1, 3).minus(&ratio(1, 2)), -1, 6));
    assert!(is(&ratio(2, 3).times(&ratio(3, 4)), 1, 2));
    assert!(is(&ratio(2, 3).divided_by(&ratio(4, 3)), 1, 2));
    assert!(is(&ratio(1, -2), -1, 2));
    assert!(is(&ratio(3, 7).negated(), -3, 7));
    assert!(is(&ratio(-3, 7).size(), 3, 7));
    assert!(is(&Rational::from_integer(Integer::from_i64(4)), 4, 1));
    assert!(is(&ratio(5, 9).clone(), 5, 9));
}

#[test]
fn rationals_are_ordered() {
    assert!(ratio(1, 3).is_less(&ratio(1, 2)));
    assert!(!ratio(1, 2).is_less(&ratio(1, 2)));
    assert!(ratio(-1, 2).is_negative());
    assert!(!ratio(0, 1).is_negative());
    assert!(ratio(0, 5).is_zero());
    assert!(!ratio(1, 5).is_zero());
    assert!(!ratio(1, 2).is_equal(&ratio(2, 3)));
}

#[test]
fn rounding_to_an_integer_is_towards_zero() {
    assert_eq!(ratio(7, 2).to_integer().text(), "3");
    assert_eq!(ratio(-7, 2).to_integer().text(), "-3");
}

#[test]
fn a_remainder_is_smaller_than_its_divisor_and_has_the_sign_of_the_dividend() {
    assert!(is(&ratio(7, 1).modulo(&ratio(3, 1)), 1, 1));
    assert!(is(&ratio(-7, 1).modulo(&ratio(3, 1)), -1, 1));
    assert!(is(&ratio(7, 1).modulo(&ratio(-3, 1)), 1, 1));
    assert!(is(&ratio(7, 2).modulo(&ratio(1, 3)), 1, 6));
}
