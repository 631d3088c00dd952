//! Exact numbers: the big-number types of `num_bigint` and `num_rational`, and the
//! library's own `Rational` over them.

use num_bigint::BigInt;
use num_bigint::ParseBigIntError;
use num_rational::BigRational;
use num_rational::Ratio;
use num_traits::ToPrimitive;
use num_traits::Zero;
use std::str::FromStr;
use vstd::arithmetic::power::pow;
use vstd::prelude::*;

verus! {

/// `num_bigint::BigInt`, an integer of any size.
#[verifier::external_type_specification]
#[verifier::external_body]
pub struct ExBigInt(BigInt);

/// `num_bigint::ParseBigIntError`, what reading an integer can fail with.
#[verifier::external_type_specification]
#[verifier::external_body]
pub struct ExParseBigIntError(ParseBigIntError);

/// `num_rational::Ratio`, a pair of a numerator and a denominator.
#[verifier::external_type_specification]
#[verifier::external_body]
#[verifier::reject_recursive_types(T)]
pub struct ExRatio<T>(Ratio<T>);

/// The integer that a `BigInt` holds.
pub uninterp spec fn integer_value(n: BigInt) -> int;

/// The number that a `BigRational` holds: numerator over denominator. It is `None` for
/// a pair whose denominator is not positive; `Ratio::new_raw` alone makes such pairs,
/// and nothing here calls it.
pub uninterp spec fn ratio_value(r: BigRational) -> Option<real>;

/// Whether `c` is one of the ten decimal digits.
pub open spec fn is_digit(c: char) -> bool {
    '0' <= c && c <= '9'
}

/// The value of a decimal digit.
pub open spec fn digit_value(c: char) -> int {
    c as int - '0' as int
}

/// The decimal digit of a value below ten.
pub open spec fn digit_char(d: int) -> char {
    (d + '0' as int) as char
}

/// The number that a row of digits spells, underscores between them left out.
pub open spec fn digits_value(s: Seq<char>) -> int
    decreases s.len(),
{
    if s.len() == 0 {
        0
    } else if s.last() == '_' {
        digits_value(s.drop_last())
    } else {
        10 * digits_value(s.drop_last()) + digit_value(s.last())
    }
}

/// What an unsigned integer literal stands for: one leading `+` may stand before the
/// digits, and underscores may stand anywhere but before the first digit.
pub open spec fn unsigned_literal(s: Seq<char>) -> Option<int> {
    let body = if s.len() > 0 && s[0] == '+' && !(s.len() > 1 && s[1] == '+') {
        s.skip(1)
    } else {
        s
    };
    if body.len() > 0 && body[0] != '_' && (forall|i: int|
        0 <= i < body.len() ==> is_digit(#[trigger] body[i]) || body[i] == '_') {
        Some(digits_value(body))
    } else {
        None
    }
}

/// What an integer literal stands for: an unsigned one, or `-` and an unsigned one that
/// has no sign of its own.
pub open spec fn integer_literal(s: Seq<char>) -> Option<int> {
    if s.len() > 0 && s[0] == '-' {
        if s.len() > 1 && s[1] == '+' {
            None
        } else {
            match unsigned_literal(s.skip(1)) {
                Some(n) => Some(-n),
                None => None,
            }
        }
    } else {
        unsigned_literal(s)
    }
}

/// The decimal digits of `n`, without leading zeros.
pub open spec fn natural_text(n: nat) -> Seq<char>
    decreases n,
{
    if n < 10 {
        seq![digit_char(n as int)]
    } else {
        natural_text(n / 10).push(digit_char((n % 10) as int))
    }
}

/// `n` in decimal, with a leading `-` where it is negative.
pub open spec fn integer_text(n: int) -> Seq<char> {
    if n < 0 {
        seq!['-'] + natural_text((-n) as nat)
    } else {
        natural_text(n as nat)
    }
}

/// `x` rounded towards zero.
pub open spec fn truncated(x: real) -> int {
    if x >= 0real {
        x.floor()
    } else {
        -((-x).floor())
    }
}

/// What is left of `a` when the whole multiples of `b` are taken out of it.
pub open spec fn remainder(a: real, b: real) -> real {
    a - b * (truncated(a / b) as real)
}

/// `x` without its sign.
pub open spec fn magnitude(x: real) -> real {
    if x < 0real {
        -x
    } else {
        x
    }
}

/// `BigInt::from(i64)`: the same integer.
#[verifier::external_body]
fn integer_from(n: i64) -> (r: BigInt)
    ensures
        integer_value(r) == n,
{
    BigInt::from(n)
}

/// `BigInt::from_str`: reads a decimal literal of the form `integer_literal` describes,
/// and fails on every other text.
#[verifier::external_body]
fn integer_parse(s: &str) -> (r: Result<BigInt, ParseBigIntError>)
    ensures
        r is Ok <==> integer_literal(s@) is Some,
        r matches Ok(n) ==> integer_literal(s@) == Some(integer_value(n)),
{
    BigInt::from_str(s)
}

/// `BigInt::pow`: the power.
#[verifier::external_body]
fn integer_pow(base: &BigInt, exponent: u32) -> (r: BigInt)
    ensures
        integer_value(r) == pow(integer_value(*base), exponent as nat),
{
    base.pow(exponent)
}

/// `&BigInt * &BigInt`: the product.
#[verifier::external_body]
fn integer_mul(a: &BigInt, b: &BigInt) -> (r: BigInt)
    ensures
        integer_value(r) == integer_value(*a) * integer_value(*b),
{
    a * b
}

/// `&BigInt + &BigInt`: the sum.
#[verifier::external_body]
fn integer_add(a: &BigInt, b: &BigInt) -> (r: BigInt)
    ensures
        integer_value(r) == integer_value(*a) + integer_value(*b),
{
    a + b
}

/// `<BigInt as ToString>::to_string`: the integer in decimal.
#[verifier::external_body]
fn integer_to_string(n: &BigInt) -> (r: String)
    ensures
        r@ == integer_text(integer_value(*n)),
{
    n.to_string()
}

/// `<BigInt as ToPrimitive>::to_i32`: the integer where it fits in an `i32`.
#[verifier::external_body]
fn integer_to_i32(n: &BigInt) -> (r: Option<i32>)
    ensures
        r is Some <==> i32::MIN <= integer_value(*n) <= i32::MAX,
        r matches Some(v) ==> v == integer_value(*n),
{
    n.to_i32()
}

/// `BigRational::new`: the quotient of two integers. It panics where the denominator is
/// zero.
#[verifier::external_body]
fn ratio_new(numer: BigInt, denom: BigInt) -> (r: BigRational)
    requires
        integer_value(denom) != 0,
    ensures
        ratio_value(r) == Some(integer_value(numer) as real / integer_value(denom) as real),
{
    BigRational::new(numer, denom)
}

/// `BigRational::from_integer`: the same number.
#[verifier::external_body]
fn ratio_from_integer(n: BigInt) -> (r: BigRational)
    ensures
        ratio_value(r) == Some(integer_value(n) as real),
{
    BigRational::from_integer(n)
}

/// `<BigRational as Clone>::clone`: the same number.
#[verifier::external_body]
fn ratio_clone(a: &BigRational) -> (r: BigRational)
    ensures
        ratio_value(r) == ratio_value(*a),
{
    a.clone()
}

/// `&BigRational + &BigRational`: the sum.
#[verifier::external_body]
fn ratio_add(a: &BigRational, b: &BigRational) -> (r: BigRational)
    requires
        ratio_value(*a) is Some,
        ratio_value(*b) is Some,
    ensures
        ratio_value(r) == Some(ratio_value(*a)->0 + ratio_value(*b)->0),
{
    a + b
}

/// `&BigRational - &BigRational`: the difference.
#[verifier::external_body]
fn ratio_sub(a: &BigRational, b: &BigRational) -> (r: BigRational)
    requires
        ratio_value(*a) is Some,
        ratio_value(*b) is Some,
    ensures
        ratio_value(r) == Some(ratio_value(*a)->0 - ratio_value(*b)->0),
{
    a - b
}

/// `&BigRational * &BigRational`: the product.
#[verifier::external_body]
fn ratio_mul(a: &BigRational, b: &BigRational) -> (r: BigRational)
    requires
        ratio_value(*a) is Some,
        ratio_value(*b) is Some,
    ensures
        ratio_value(r) == Some(ratio_value(*a)->0 * ratio_value(*b)->0),
{
    a * b
}

/// `&BigRational / &BigRational`: the quotient. It panics where the divisor is zero.
#[verifier::external_body]
fn ratio_div(a: &BigRational, b: &BigRational) -> (r: BigRational)
    requires
        ratio_value(*a) is Some,
        ratio_value(*b) is Some,
        ratio_value(*b) != Some(0real),
    ensures
        ratio_value(r) == Some(ratio_value(*a)->0 / ratio_value(*b)->0),
{
    a / b
}

/// `&BigRational % &BigRational`: the remainder of the division that rounds towards
/// zero. It panics where the divisor is zero.
#[verifier::external_body]
fn ratio_rem(a: &BigRational, b: &BigRational) -> (r: BigRational)
    requires
        ratio_value(*a) is Some,
        ratio_value(*b) is Some,
        ratio_value(*b) != Some(0real),
    ensures
        ratio_value(r) == Some(remainder(ratio_value(*a)->0, ratio_value(*b)->0)),
{
    a % b
}

/// `-&BigRational`: the number with the other sign.
#[verifier::external_body]
fn ratio_neg(a: &BigRational) -> (r: BigRational)
    requires
        ratio_value(*a) is Some,
    ensures
        ratio_value(r) == Some(-(ratio_value(*a)->0)),
{
    -a
}

/// `<BigRational as PartialOrd>::lt`: whether the first number is the smaller one.
#[verifier::external_body]
fn ratio_lt(a: &BigRational, b: &BigRational) -> (r: bool)
    requires
        ratio_value(*a) is Some,
        ratio_value(*b) is Some,
    ensures
        r == (ratio_value(*a)->0 < ratio_value(*b)->0),
{
    a < b
}

/// `<BigRational as PartialEq>::eq`: whether the numbers are equal.
#[verifier::external_body]
fn ratio_eq(a: &BigRational, b: &BigRational) -> (r: bool)
    requires
        ratio_value(*a) is Some,
        ratio_value(*b) is Some,
    ensures
        r == (ratio_value(*a)->0 == ratio_value(*b)->0),
{
    a == b
}

/// `<BigRational as Zero>::is_zero`: whether the number is zero.
#[verifier::external_body]
fn ratio_is_zero(a: &BigRational) -> (r: bool)
    requires
        ratio_value(*a) is Some,
    ensures
        r == (ratio_value(*a)->0 == 0real),
{
    a.is_zero()
}

/// `BigRational::to_integer`: the number rounded towards zero.
#[verifier::external_body]
fn ratio_to_integer(a: &BigRational) -> (r: BigInt)
    requires
        ratio_value(*a) is Some,
    ensures
        integer_value(r) == truncated(ratio_value(*a)->0),
{
    a.to_integer()
}

/// An integer of any size.
#[derive(Debug)]
pub struct Integer {
    big: BigInt,
}

impl View for Integer {
    type V = int;

    closed spec fn view(&self) -> int {
        integer_value(self.big)
    }
}

impl Integer {
    /// The integer `n`.
    pub fn from_i64(n: i64) -> (r: Integer)
        ensures
            r@ == n,
    {
        Integer { big: integer_from(n) }
    }

    /// The integer that a decimal literal stands for.
    pub fn parse(s: &str) -> (r: Option<Integer>)
        ensures
            r is Some <==> integer_literal(s@) is Some,
            r matches Some(n) ==> integer_literal(s@) == Some(n@),
    {
        match integer_parse(s) {
            Ok(n) => Some(Integer { big: n }),
            Err(_) => None,
        }
    }

    /// `self` to the power of `exponent`.
    pub fn to_power(&self, exponent: u32) -> (r: Integer)
        ensures
            r@ == pow(self@, exponent as nat),
    {
        Integer { big: integer_pow(&self.big, exponent) }
    }

    /// The product.
    pub fn times(&self, other: &Integer) -> (r: Integer)
        ensures
            r@ == self@ * other@,
    {
        Integer { big: integer_mul(&self.big, &other.big) }
    }

    /// The sum.
    pub fn plus(&self, other: &Integer) -> (r: Integer)
        ensures
            r@ == self@ + other@,
    {
        Integer { big: integer_add(&self.big, &other.big) }
    }

    /// The integer in decimal.
    pub fn text(&self) -> (r: String)
        ensures
            r@ == integer_text(self@),
    {
        integer_to_string(&self.big)
    }

    /// The integer where it fits in an `i32`.
    pub fn as_i32(&self) -> (r: Option<i32>)
        ensures
            r is Some <==> i32::MIN <= self@ <= i32::MAX,
            r matches Some(v) ==> v == self@,
    {
        integer_to_i32(&self.big)
    }
}

/// An exact rational number.
#[derive(Debug)]
pub struct Rational {
    ratio: BigRational,
}

impl View for Rational {
    type V = real;

    closed spec fn view(&self) -> real {
        ratio_value(self.ratio)->0
    }
}

impl Clone for Rational {
    fn clone(&self) -> (r: Rational)
        ensures
            r@ == self@,
    {
        proof {
            use_type_invariant(self);
        }
        Rational { ratio: ratio_clone(&self.ratio) }
    }
}

impl Rational {
    #[verifier::type_invariant]
    spec fn is_number(&self) -> bool {
        ratio_value(self.ratio) is Some
    }

    /// The integer `n`.
    pub fn from_i64(n: i64) -> (r: Rational)
        ensures
            r@ == n as real,
    {
        Rational { ratio: ratio_from_integer(integer_from(n)) }
    }

    /// The same number.
    pub fn from_integer(n: Integer) -> (r: Rational)
        ensures
            r@ == n@ as real,
    {
        Rational { ratio: ratio_from_integer(n.big) }
    }

    /// The quotient of two integers.
    pub fn quotient(numer: Integer, denom: Integer) -> (r: Rational)
        requires
            denom@ != 0,
        ensures
            r@ == numer@ as real / denom@ as real,
    {
        Rational { ratio: ratio_new(numer.big, denom.big) }
    }

    /// The sum.
    pub fn plus(&self, other: &Rational) -> (r: Rational)
        ensures
            r@ == self@ + other@,
    {
        proof {
            use_type_invariant(self);
            use_type_invariant(other);
        }
        Rational { ratio: ratio_add(&self.ratio, &other.ratio) }
    }

    /// The difference.
    pub fn minus(&self, other: &Rational) -> (r: Rational)
        ensures
            r@ == self@ - other@,
    {
        proof {
            use_type_invariant(self);
            use_type_invariant(other);
        }
        Rational { ratio: ratio_sub(&self.ratio, &other.ratio) }
    }

    /// The product.
    pub fn times(&self, other: &Rational) -> (r: Rational)
        ensures
            r@ == self@ * other@,
    {
        proof {
            use_type_invariant(self);
            use_type_invariant(other);
        }
        Rational { ratio: ratio_mul(&self.ratio, &other.ratio) }
    }

    /// The quotient.
    pub fn divided_by(&self, other: &Rational) -> (r: Rational)
        requires
            other@ != 0real,
        ensures
            r@ == self@ / other@,
    {
        proof {
            use_type_invariant(self);
            use_type_invariant(other);
        }
        Rational { ratio: ratio_div(&self.ratio, &other.ratio) }
    }

    /// The remainder, which has the sign of `self`.
    pub fn modulo(&self, other: &Rational) -> (r: Rational)
        requires
            other@ != 0real,
        ensures
            r@ == remainder(self@, other@),
    {
        proof {
            use_type_invariant(self);
            use_type_invariant(other);
        }
        Rational { ratio: ratio_rem(&self.ratio, &other.ratio) }
    }

    /// The number with the other sign.
    pub fn negated(&self) -> (r: Rational)
        ensures
            r@ == -self@,
    {
        proof {
            use_type_invariant(self);
        }
        Rational { ratio: ratio_neg(&self.ratio) }
    }

    /// Whether `self` is smaller than `other`.
    pub fn is_less(&self, other: &Rational) -> (r: bool)
        ensures
            r == (self@ < other@),
    {
        proof {
            use_type_invariant(self);
            use_type_invariant(other);
        }
        ratio_lt(&self.ratio, &other.ratio)
    }

    /// Whether the numbers are equal.
    pub fn is_equal(&self, other: &Rational) -> (r: bool)
        ensures
            r == (self@ == other@),
    {
        proof {
            use_type_invariant(self);
            use_type_invariant(other);
        }
        ratio_eq(&self.ratio, &other.ratio)
    }

    /// Whether the number is zero.
    pub fn is_zero(&self) -> (r: bool)
        ensures
            r == (self@ == 0real),
    {
        proof {
            use_type_invariant(self);
        }
        ratio_is_zero(&self.ratio)
    }

    /// Whether the number is below zero.
    pub fn is_negative(&self) -> (r: bool)
        ensures
            r == (self@ < 0real),
    {
        self.is_less(&Rational::from_i64(0))
    }

    /// The number without its sign.
    pub fn size(&self) -> (r: Rational)
        ensures
            r@ == magnitude(self@),
    {
        if self.is_negative() {
            self.negated()
        } else {
            self.clone()
        }
    }

    /// The number rounded towards zero.
    pub fn to_integer(&self) -> (r: Integer)
        ensures
            r@ == truncated(self@),
    {
        proof {
            use_type_invariant(self);
        }
        Integer { big: ratio_to_integer(&self.ratio) }
    }
}

} // verus!
