//! Numbers as text: reading decimals and writing them.

use crate::number::{
    digit_value, digits_value, integer_literal, integer_text, is_digit, natural_text, truncated,
    Integer, Rational,
};
use crate::text::{chars_of, is_space, lemma_run_is, run, text_between, trim_ends, trimmed};
use vstd::arithmetic::power::pow;
use vstd::prelude::*;

verus! {

/// Ten to the power of `n`.
pub open spec fn power_of_ten(n: nat) -> int {
    pow(10, n)
}

/// The integer that stands before or behind the point; an absent one counts as zero.
pub open spec fn part_value(s: Seq<char>) -> Option<int> {
    if s.len() == 0 {
        Some(0)
    } else {
        integer_literal(s)
    }
}

/// What a decimal without a sign of its own stands for, or what is wrong with it.
pub open spec fn unsigned_decimal(s: Seq<char>) -> Result<real, Seq<char>> {
    let point = run(s, |c: char| c != '.');
    if point < s.len() {
        let fraction = s.skip(point + 1);
        match (part_value(s.take(point)), part_value(fraction)) {
            (None, _) => Err("invalid integer part"@),
            (_, None) => Err("invalid fractional part"@),
            (Some(whole), Some(rest)) => {
                let unit = power_of_ten((fraction.len() as u32) as nat);
                Ok((whole * unit + rest) as real / unit as real)
            },
        }
    } else {
        match integer_literal(s) {
            None => Err("invalid number"@),
            Some(whole) => Ok(whole as real),
        }
    }
}

/// What a decimal stands for, or what is wrong with it. White space may stand around
/// it, and one sign before it.
pub open spec fn decimal_value(s: Seq<char>) -> Result<real, Seq<char>> {
    let t = trimmed(s);
    if t.len() > 0 && t[0] == '-' {
        match unsigned_decimal(t.skip(1)) {
            Ok(x) => Ok(-x),
            Err(e) => Err(e),
        }
    } else if t.len() > 0 && t[0] == '+' {
        unsigned_decimal(t.skip(1))
    } else {
        unsigned_decimal(t)
    }
}

/// Whether `r` says what `expected` says.
pub open spec fn same_number(r: Result<Rational, String>, expected: Result<real, Seq<char>>) -> bool {
    match (r, expected) {
        (Ok(x), Ok(y)) => x@ == y,
        (Err(x), Err(y)) => x@ == y,
        _ => false,
    }
}

/// Powers of ten are positive, and each is ten times the one before it.
pub proof fn lemma_power_of_ten(n: nat)
    ensures
        power_of_ten(n) > 0,
        power_of_ten(n + 1) == 10 * power_of_ten(n),
        power_of_ten(0) == 1,
{
    vstd::arithmetic::power::lemma_pow_positive(10, n);
    reveal(pow);
}

/// Reads the part of a decimal from `from` up to `to`.
fn parse_part(chars: &Vec<char>, from: usize, to: usize) -> (r: Option<Integer>)
    requires
        from <= to <= chars@.len(),
    ensures
        r is Some <==> part_value(chars@.subrange(from as int, to as int)) is Some,
        r matches Some(n) ==> part_value(chars@.subrange(from as int, to as int)) == Some(n@),
{
    if from == to {
        Some(Integer::from_i64(0))
    } else {
        Integer::parse(text_between(chars, from, to).as_str())
    }
}

/// Reads the decimal without a sign of its own that stands from `from` up to `to`.
fn parse_unsigned(chars: &Vec<char>, from: usize, to: usize) -> (r: Result<Rational, String>)
    requires
        from <= to <= chars@.len(),
    ensures
        same_number(r, unsigned_decimal(chars@.subrange(from as int, to as int))),
{
    let ghost s = chars@.subrange(from as int, to as int);
    let mut point: usize = from;
    while point < to && chars[point] != '.'
        invariant
            from <= point <= to <= chars@.len(),
            forall|i: int| from <= i < point ==> chars@[i] != '.',
        decreases to - point,
    {
        point = point + 1;
    }
    proof {
        lemma_run_is(s, |c: char| c != '.', point - from);
    }
    if point < to {
        proof {
            assert(s.take(point - from) == chars@.subrange(from as int, point as int));
            assert(s.skip(point - from + 1) == chars@.subrange(point + 1, to as int));
        }
        let whole: Integer = match parse_part(chars, from, point) {
            Some(n) => n,
            None => return Err("invalid integer part".to_owned()),
        };
        let rest: Integer = match parse_part(chars, point + 1, to) {
            Some(n) => n,
            None => return Err("invalid fractional part".to_owned()),
        };
        let unit: Integer = Integer::from_i64(10).to_power((to - point - 1) as u32);
        let numer: Integer = whole.times(&unit).plus(&rest);
        proof {
            lemma_power_of_ten(((to - point - 1) as u32) as nat);
        }
        Ok(Rational::quotient(numer, unit))
    } else {
        proof {
            assert(s.take(point - from) == s);
        }
        match Integer::parse(text_between(chars, from, to).as_str()) {
            Some(n) => Ok(Rational::from_integer(n)),
            None => Err("invalid number".to_owned()),
        }
    }
}

/// Reads a decimal: white space around it is skipped, a sign may stand before it, and
/// either side of the point may be left out.
pub fn parse_decimal(s: &str) -> (r: Result<Rational, String>)
    ensures
        same_number(r, decimal_value(s@)),
{
    let chars: Vec<char> = chars_of(s);
    let (from, to) = trim_ends(&chars);
    let ghost t = trimmed(s@);
    if from < to && chars[from] == '-' {
        proof {
            assert(t.skip(1) == chars@.subrange(from + 1, to as int));
        }
        match parse_unsigned(&chars, from + 1, to) {
            Ok(x) => Ok(x.negated()),
            Err(e) => Err(e),
        }
    } else if from < to && chars[from] == '+' {
        proof {
            assert(t.skip(1) == chars@.subrange(from + 1, to as int));
        }
        parse_unsigned(&chars, from + 1, to)
    } else {
        parse_unsigned(&chars, from, to)
    }
}

/// `x` rounded to the nearest integer, a half away from zero where `x` is positive.
pub open spec fn rounded(x: real) -> int {
    if x - truncated(x) as real >= 1real / 2real {
        truncated(x) + 1
    } else {
        truncated(x)
    }
}

/// `x` with its point moved `places` digits to the right.
pub open spec fn shifted(x: real, places: int) -> real {
    x * power_of_ten(places as nat) as real
}

/// A row of `n` zeros.
pub open spec fn zeros(n: int) -> Seq<char> {
    Seq::new(n as nat, |i: int| '0')
}

/// `s` without the zeros that it ends with.
pub open spec fn without_zeros(s: Seq<char>) -> Seq<char>
    decreases s.len(),
{
    if s.len() > 0 && s.last() == '0' {
        without_zeros(s.drop_last())
    } else {
        s
    }
}

/// `digits` with zeros put before it until a digit can stand before the last `places`.
pub open spec fn padded(digits: Seq<char>, places: int) -> Seq<char> {
    if digits.len() <= places {
        zeros(places + 1 - digits.len()) + digits
    } else {
        digits
    }
}

/// `digits` with a point before the last `places` of them; zeros that end the fraction
/// are left out, and the point too where nothing stands behind it.
pub open spec fn with_point(digits: Seq<char>, places: int) -> Seq<char> {
    let all = padded(digits, places);
    let whole = all.take(all.len() - places);
    let fraction = without_zeros(all.skip(all.len() - places));
    if fraction.len() == 0 {
        whole
    } else {
        whole + seq!['.'] + fraction
    }
}

/// `x` with at most `places` decimals, or truncated to an integer where `places` is
/// negative.
pub open spec fn decimal_text(x: real, places: int) -> Seq<char> {
    if places < 0 {
        integer_text(truncated(x))
    } else {
        with_point(integer_text(rounded(shifted(x, places))), places)
    }
}

/// Whether `x` has more than `places` decimals.
pub open spec fn is_rounded(x: real, places: int) -> bool {
    places >= 0 && shifted(x, places) != truncated(shifted(x, places)) as real
}

/// The nearest integer, a half away from zero where the number is positive.
pub fn round(x: &Rational) -> (r: Integer)
    ensures
        r@ == rounded(x@),
{
    let whole: Integer = x.to_integer();
    let fraction: Rational = x.minus(&Rational::from_integer(x.to_integer()));
    let half: Rational = Rational::quotient(Integer::from_i64(1), Integer::from_i64(2));
    if fraction.is_less(&half) {
        whole
    } else {
        whole.plus(&Integer::from_i64(1))
    }
}

/// Puts a point before the last `places` of `digits`.
fn insert_point(digits: &str, places: usize) -> (r: String)
    requires
        0 < places < usize::MAX,
    ensures
        r@ == with_point(digits@, places as int),
{
    let given: Vec<char> = chars_of(digits);
    let mut chars: Vec<char> = Vec::new();
    if given.len() <= places {
        let missing: usize = places + 1 - given.len();
        while chars.len() < missing
            invariant
                chars@ == zeros(chars@.len() as int),
                chars@.len() <= missing,
            decreases missing - chars@.len(),
        {
            chars.push('0');
            assert(chars@ =~= zeros(chars@.len() as int));
        }
    }
    let ghost before = chars@;
    let mut i: usize = 0;
    while i < given.len()
        invariant
            i <= given@.len(),
            chars@ == before + given@.take(i as int),
        decreases given@.len() - i,
    {
        chars.push(given[i]);
        i = i + 1;
        assert(chars@ =~= before + given@.take(i as int));
    }
    proof {
        assert(given@.take(given@.len() as int) == given@);
        assert(chars@ =~= padded(digits@, places as int));
    }
    let split: usize = chars.len() - places;
    let mut end: usize = chars.len();
    proof {
        assert(chars@.subrange(split as int, end as int) == chars@.skip(split as int));
    }
    while split < end && chars[end - 1] == '0'
        invariant
            split <= end <= chars@.len(),
            without_zeros(chars@.subrange(split as int, end as int)) == without_zeros(
                chars@.skip(split as int),
            ),
        decreases end,
    {
        proof {
            assert(chars@.subrange(split as int, end as int).drop_last() == chars@.subrange(
                split as int,
                end - 1,
            ));
        }
        end = end - 1;
    }
    let mut text: String = text_between(&chars, 0, split);
    if split < end {
        text.push('.');
        let fraction: String = text_between(&chars, split, end);
        text.append(fraction.as_str());
    }
    proof {
        assert(chars@.subrange(0, split as int) == chars@.take(split as int));
        assert(text@ =~= with_point(digits@, places as int));
    }
    text
}

/// Writes `x` with at most `places` decimals, and says whether it has more than those.
/// Where `places` is negative it writes the integer part and says nothing of the rest.
pub fn format_exact_decimal(x: &Rational, places: i32) -> (r: (String, bool))
    ensures
        r.0@ == decimal_text(x@, places as int),
        r.1 == is_rounded(x@, places as int),
{
    if places < 0 {
        return (x.to_integer().text(), false);
    }
    let unit: Integer = Integer::from_i64(10).to_power(places as u32);
    let shifted: Rational = x.times(&Rational::from_integer(unit));
    let digits: String = round(&shifted).text();
    let exact: bool = shifted.is_equal(&Rational::from_integer(shifted.to_integer()));
    if places == 0 {
        proof {
            assert(with_point(digits@, 0) == digits@);
        }
        (digits, !exact)
    } else {
        (insert_point(digits.as_str(), places as usize), !exact)
    }
}

/// Whether every character of `s` is a digit.
pub open spec fn all_digits(s: Seq<char>) -> bool {
    forall|i: int| 0 <= i < s.len() ==> is_digit(#[trigger] s[i])
}

/// The digits of a number spell it.
pub proof fn lemma_natural_text(n: nat)
    ensures
        natural_text(n).len() > 0,
        all_digits(natural_text(n)),
        digits_value(natural_text(n)) == n,
    decreases n,
{
    if n < 10 {
        assert(natural_text(n).drop_last() == Seq::<char>::empty());
        assert(digits_value(Seq::<char>::empty()) == 0);
    } else {
        lemma_natural_text(n / 10);
        assert(natural_text(n).drop_last() == natural_text(n / 10));
    }
}

/// Digits put behind others shift those by as many places.
proof fn lemma_digits_concat(a: Seq<char>, b: Seq<char>)
    requires
        all_digits(b),
    ensures
        digits_value(a + b) == digits_value(a) * power_of_ten(b.len()) + digits_value(b),
    decreases b.len(),
{
    if b.len() == 0 {
        assert(a + b == a);
        lemma_power_of_ten(0);
        assert(digits_value(a) * 1 == digits_value(a)) by (nonlinear_arith);
    } else {
        let b1 = b.drop_last();
        let n = b1.len();
        assert((a + b).drop_last() == a + b1);
        assert(is_digit(b[b.len() - 1]));
        assert(all_digits(b1)) by {
            assert forall|i: int| 0 <= i < b1.len() implies is_digit(#[trigger] b1[i]) by {
                assert(b1[i] == b[i]);
            }
        }
        lemma_digits_concat(a, b1);
        lemma_power_of_ten(n);
        let va = digits_value(a);
        let vb = digits_value(b1);
        let p = power_of_ten(n);
        let d = digit_value(b.last());
        assert(10 * (va * p + vb) + d == va * (10 * p) + (10 * vb + d)) by (nonlinear_arith);
    }
}

/// Zeros behind a row of digits multiply it, and before it change nothing.
pub proof fn lemma_zeros_value(n: int)
    requires
        n >= 0,
    ensures
        all_digits(zeros(n)),
        digits_value(zeros(n)) == 0,
    decreases n,
{
    if n > 0 {
        lemma_zeros_value(n - 1);
        assert(zeros(n).drop_last() =~= zeros(n - 1));
    }
}

/// A row of characters is what is left of it without the zeros at its end, and those.
pub proof fn lemma_without_zeros(s: Seq<char>)
    ensures
        without_zeros(s).len() <= s.len(),
        s == without_zeros(s) + zeros(s.len() - without_zeros(s).len()),
    decreases s.len(),
{
    if s.len() > 0 && s.last() == '0' {
        let t = s.drop_last();
        lemma_without_zeros(t);
        let k = t.len() - without_zeros(t).len();
        assert(zeros(k + 1) =~= zeros(k).push('0'));
        assert(s =~= t.push('0'));
        assert(s =~= without_zeros(t) + zeros(k + 1));
    } else {
        assert(s =~= s + zeros(0));
    }
}

/// A row of digits is an integer literal.
proof fn lemma_digits_are_literal(s: Seq<char>)
    requires
        all_digits(s),
        s.len() > 0,
    ensures
        integer_literal(s) == Some(digits_value(s)),
{
    assert(is_digit(s[0]));
}

/// White space has to be there to be trimmed away.
pub proof fn lemma_trimmed_is_same(s: Seq<char>)
    requires
        s.len() > 0,
        !is_space(s[0]),
        !is_space(s.last()),
    ensures
        trimmed(s) == s,
{
    assert(run(s, |c: char| is_space(c)) == 0);
    assert(s.skip(0) == s);
}

/// A number written out with a point reads back as the digits over the power of ten.
proof fn lemma_with_point_reads_back(digits: Seq<char>, places: nat)
    requires
        all_digits(digits),
        digits.len() > 0,
        places <= u32::MAX,
    ensures
        decimal_value(with_point(digits, places as int)) == Ok::<real, Seq<char>>(
            digits_value(digits) as real / power_of_ten(places) as real,
        ),
{
    let all = padded(digits, places as int);
    let pad = all.len() - digits.len();
    assert(all =~= zeros(pad) + digits);
    lemma_zeros_value(pad);
    lemma_digits_concat(zeros(pad), digits);
    assert(0 * power_of_ten(digits.len()) == 0) by (nonlinear_arith);
    let n = digits_value(digits);
    assert(digits_value(all) == n);
    assert(all_digits(all)) by {
        assert forall|i: int| 0 <= i < all.len() implies is_digit(#[trigger] all[i]) by {
            if i >= pad {
                assert(all[i] == digits[i - pad]);
            }
        }
    }
    let whole = all.take(all.len() - places);
    let tail = all.skip(all.len() - places);
    let fraction = without_zeros(tail);
    let k = tail.len() - fraction.len();
    lemma_without_zeros(tail);
    lemma_zeros_value(k);
    assert(all_digits(whole)) by {
        assert forall|i: int| 0 <= i < whole.len() implies is_digit(#[trigger] whole[i]) by {
            assert(whole[i] == all[i]);
        }
    }
    assert(all_digits(tail)) by {
        assert forall|i: int| 0 <= i < tail.len() implies is_digit(#[trigger] tail[i]) by {
            assert(tail[i] == all[all.len() - places + i]);
        }
    }
    assert(all_digits(fraction)) by {
        assert forall|i: int| 0 <= i < fraction.len() implies is_digit(#[trigger] fraction[i]) by {
            assert(fraction[i] == tail[i]);
        }
    }
    assert(all =~= whole + tail);
    lemma_digits_concat(whole, tail);
    lemma_digits_concat(fraction, zeros(k));
    let w = digits_value(whole);
    let f = digits_value(fraction);
    let pk = power_of_ten(k as nat);
    let pf = power_of_ten(fraction.len());
    let pp = power_of_ten(places);
    assert(n == w * pp + f * pk);
    assert(pp == pf * pk) by {
        vstd::arithmetic::power::lemma_pow_adds(10, fraction.len(), k as nat);
    }
    lemma_power_of_ten(places);
    lemma_power_of_ten(fraction.len());
    lemma_power_of_ten(k as nat);
    let text = with_point(digits, places as int);
    assert(whole.len() > 0 && is_digit(whole[0]));
    if fraction.len() == 0 {
        assert(text == whole);
        assert(is_digit(whole[whole.len() - 1]));
        lemma_trimmed_is_same(text);
        assert(text.take(text.len() as int) == text);
        lemma_run_is(text, |c: char| c != '.', text.len() as int);
        lemma_digits_are_literal(text);
        assert(fraction =~= Seq::<char>::empty());
        assert(f == 0);
        assert(n == w * pp) by (nonlinear_arith)
            requires
                n == w * pp + f * pk,
                f == 0,
        ;
        lemma_ratio(w, pp);
    } else {
        assert(text.last() == fraction.last());
        assert(is_digit(fraction[fraction.len() - 1]));
        lemma_trimmed_is_same(text);
        assert forall|i: int| 0 <= i < whole.len() implies #[trigger] text[i] != '.' by {
            assert(text[i] == whole[i]);
            assert(is_digit(whole[i]));
        }
        lemma_run_is(text, |c: char| c != '.', whole.len() as int);
        assert(text.take(whole.len() as int) =~= whole);
        assert(text.skip(whole.len() as int + 1) =~= fraction);
        lemma_digits_are_literal(whole);
        lemma_digits_are_literal(fraction);
        assert(fraction.len() <= places);
        assert((w * pf + f) * pk == n) by (nonlinear_arith)
            requires
                n == w * pp + f * pk,
                pp == pf * pk,
        ;
        lemma_ratio_scaled(w * pf + f, pf, pk);
    }
}

/// A multiple of a number over that number is the factor.
proof fn lemma_ratio(w: int, p: int)
    requires
        p > 0,
    ensures
        (w * p) as real / p as real == w as real,
{
    let x = w as real;
    let y = p as real;
    assert((w * p) as real == x * y) by (nonlinear_arith)
        requires
            x == w as real,
            y == p as real,
    ;
    assert(x * y / y == x) by (nonlinear_arith)
        requires
            y > 0real,
    ;
}

/// A ratio stays the same where both sides are multiplied.
proof fn lemma_ratio_scaled(a: int, b: int, k: int)
    requires
        b > 0,
        k > 0,
    ensures
        (a * k) as real / (b * k) as real == a as real / b as real,
{
    let x = a as real;
    let y = b as real;
    let z = k as real;
    assert((a * k) as real == x * z && (b * k) as real == y * z) by (nonlinear_arith)
        requires
            x == a as real,
            y == b as real,
            z == k as real,
    ;
    assert(x * z / (y * z) == x / y) by (nonlinear_arith)
        requires
            y > 0real,
            z > 0real,
    ;
}

/// The number that is shown for `x` with at most `places` decimals.
pub open spec fn shown_value(x: real, places: int) -> real {
    if places < 0 {
        truncated(x) as real
    } else {
        rounded(shifted(x, places)) as real / power_of_ten(places as nat) as real
    }
}

/// Reading what was written gives back the number that is shown.
pub proof fn law_decimal_reads_back(x: real, places: int)
    requires
        x >= 0real,
        places <= i32::MAX,
    ensures
        decimal_value(decimal_text(x, places)) == Ok::<real, Seq<char>>(shown_value(x, places)),
{
    if places < 0 {
        let n = truncated(x) as nat;
        lemma_natural_text(n);
        let text = natural_text(n);
        lemma_with_point_reads_back(text, 0);
        assert(text.take(text.len() as int) == text);
        assert(text.skip(text.len() as int) == Seq::<char>::empty());
        lemma_power_of_ten(0);
        lemma_ratio(n as int, 1);
    } else {
        let p = power_of_ten(places as nat);
        lemma_power_of_ten(places as nat);
        assert(x * p as real >= 0real) by (nonlinear_arith)
            requires
                x >= 0real,
                p > 0,
        ;
        let n = rounded(shifted(x, places)) as nat;
        lemma_natural_text(n);
        lemma_with_point_reads_back(natural_text(n), places as nat);
    }
}

/// What is shown is at most half a unit of the last decimal away from the number, and it
/// is the number itself exactly where no decimal was cut off.
pub proof fn law_decimal_is_nearest(x: real, places: int)
    requires
        x >= 0real,
        places >= 0,
    ensures
        shifted(shown_value(x, places), places) - shifted(x, places) <= 1real / 2real,
        shifted(x, places) - shifted(shown_value(x, places), places) < 1real / 2real,
        is_rounded(x, places) <==> shown_value(x, places) != x,
{
    let p = power_of_ten(places as nat) as real;
    lemma_power_of_ten(places as nat);
    let r = rounded(x * p) as real;
    assert(x * p >= 0real) by (nonlinear_arith)
        requires
            x >= 0real,
            p > 0real,
    ;
    assert((r / p) * p == r) by (nonlinear_arith)
        requires
            p > 0real,
    ;
    assert(x * p / p == x) by (nonlinear_arith)
        requires
            p > 0real,
    ;
}

} // verus!
