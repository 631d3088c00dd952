//! Laws of the texts that values are written as.

use crate::decimal::{
    all_digits, decimal_text, decimal_value, law_decimal_is_nearest, law_decimal_reads_back,
    lemma_natural_text, lemma_power_of_ten, lemma_trimmed_is_same, lemma_without_zeros,
    lemma_zeros_value, padded, power_of_ten, rounded, shifted, shown_value, unsigned_decimal,
    with_point, without_zeros, zeros,
};
use crate::format::{
    bare, breakdown, cascade, default_units, duration_in, last_places, last_shown, mark,
    minus_sign, not_shorter, number_text, part, places_of, shortest, spaced, value_text,
};
use crate::number::{digit_char, integer_text, is_digit, magnitude, natural_text, truncated};
use crate::syntax::{FuncView, TargetView, UnitDefView, UnitView, ValueView};
use crate::text::{is_space, lemma_run, run, trim_end, trim_start, trimmed};
use crate::units::find_unit;
use vstd::prelude::*;

verus! {

/// Whether the text is made of digits and points, and starts and ends with a digit.
pub open spec fn is_numeral(s: Seq<char>) -> bool {
    &&& s.len() > 0
    &&& is_digit(s[0])
    &&& is_digit(s.last())
    &&& forall|i: int| 0 <= i < s.len() ==> is_digit(#[trigger] s[i]) || s[i] == '.'
}

/// A row of digits is a numeral.
pub proof fn lemma_digits_are_numeral(s: Seq<char>)
    requires
        all_digits(s),
        s.len() > 0,
    ensures
        is_numeral(s),
{
    assert(is_digit(s[0]));
    assert(is_digit(s[s.len() - 1]));
}

/// Digits with a point among them are a numeral.
proof fn lemma_with_point_is_numeral(digits: Seq<char>, places: int)
    requires
        all_digits(digits),
        digits.len() > 0,
        places >= 0,
    ensures
        is_numeral(with_point(digits, places)),
{
    let all = padded(digits, places);
    if digits.len() <= places {
        lemma_zeros_value(places + 1 - digits.len());
    }
    assert(all_digits(all)) by {
        let pad = all.len() - digits.len();
        assert forall|i: int| 0 <= i < all.len() implies is_digit(#[trigger] all[i]) by {
            if i < pad {
                assert(all[i] == zeros(pad)[i]);
            } else {
                assert(all[i] == digits[i - pad]);
            }
        }
    }
    let whole = all.take(all.len() - places);
    let tail = all.skip(all.len() - places);
    let fraction = without_zeros(tail);
    assert forall|i: int| 0 <= i < whole.len() implies is_digit(#[trigger] whole[i]) by {
        assert(whole[i] == all[i]);
    }
    lemma_without_zeros(tail);
    assert forall|i: int| 0 <= i < fraction.len() implies is_digit(#[trigger] fraction[i]) by {
        assert(tail[i] == fraction[i]);
        assert(tail[i] == all[all.len() - places + i]);
    }
    if fraction.len() == 0 {
        lemma_digits_are_numeral(whole);
    } else {
        let text = whole + seq!['.'] + fraction;
        assert forall|i: int| 0 <= i < text.len() implies is_digit(#[trigger] text[i]) || text[i]
            == '.' by {
            if i < whole.len() {
                assert(text[i] == whole[i]);
            } else if i > whole.len() {
                assert(text[i] == fraction[i - whole.len() - 1]);
            }
        }
        assert(text[0] == whole[0]);
        assert(text.last() == fraction[fraction.len() - 1]);
    }
}

/// A number that is not negative is not negative with its point moved or rounded.
pub proof fn lemma_not_negative(x: real, places: int)
    requires
        x >= 0real,
    ensures
        shifted(x, places) >= 0real,
        rounded(shifted(x, places)) >= 0,
        rounded(x) >= 0,
        truncated(x) >= 0,
{
    let p = power_of_ten(places as nat);
    lemma_power_of_ten(places as nat);
    assert(x * p as real >= 0real) by (nonlinear_arith)
        requires
            x >= 0real,
            p > 0,
    ;
}

/// A number that is not negative is written as a numeral.
pub proof fn lemma_decimal_text_is_numeral(x: real, places: int)
    requires
        x >= 0real,
    ensures
        is_numeral(decimal_text(x, places)),
{
    lemma_not_negative(x, places);
    if places < 0 {
        lemma_natural_text(truncated(x) as nat);
        lemma_digits_are_numeral(natural_text(truncated(x) as nat));
    } else {
        let n = rounded(shifted(x, places)) as nat;
        lemma_natural_text(n);
        lemma_with_point_is_numeral(natural_text(n), places);
    }
}

/// Whether no unit is of length zero or less.
pub open spec fn are_positive(units: Seq<UnitView>) -> bool {
    forall|i: int| 0 <= i < units.len() ==> (#[trigger] units[i]).factor > 0real
}

/// A numeral is no white space, and trimming leaves it alone.
proof fn lemma_numeral_is_trimmed(s: Seq<char>)
    requires
        is_numeral(s),
    ensures
        trimmed(s) == s,
        decimal_value(s) == unsigned_decimal(s),
{
    lemma_trimmed_is_same(s);
}

/// A minus sign before a numeral makes it negative.
proof fn lemma_minus_numeral(s: Seq<char>)
    requires
        is_numeral(s),
    ensures
        decimal_value("-"@ + s) == (match decimal_value(s) {
            Ok(x) => Ok::<real, Seq<char>>(-x),
            Err(e) => Err(e),
        }),
{
    reveal_strlit("-");
    let t = "-"@ + s;
    assert(t[0] == '-');
    assert(t.last() == s.last());
    lemma_trimmed_is_same(t);
    lemma_numeral_is_trimmed(s);
    assert(t.skip(1) =~= s);
}

/// The number that the text of `x` shows.
pub open spec fn number_shown(x: real, places: int) -> real {
    if x < 0real {
        -shown_value(magnitude(x), places)
    } else {
        shown_value(magnitude(x), places)
    }
}

/// Behind its mark, the text of a number reads back as the number that it shows, and it is
/// marked exactly where that is not the number itself.
pub proof fn law_number_text_reads_back(x: real, dp: Option<int>)
    requires
        places_of(dp) <= i32::MAX,
    ensures
        ({
            let places = places_of(dp);
            let text = minus_sign(x) + decimal_text(magnitude(x), places);
            let y = number_shown(x, places);
            number_text(x, dp) == mark(y == x) + text && decimal_value(text) == Ok::<
                real,
                Seq<char>,
            >(y)
        }),
{
    let places = places_of(dp);
    let size = magnitude(x);
    let numeral = decimal_text(size, places);
    law_decimal_reads_back(size, places);
    lemma_decimal_text_is_numeral(size, places);
    reveal_strlit("");
    let text = minus_sign(x) + numeral;
    if x < 0real {
        lemma_minus_numeral(numeral);
    } else {
        assert(text =~= numeral);
    }
    assert(number_text(x, dp) =~= mark(number_shown(x, places) == x) + text);
}

/// What is left of a duration once whole units are taken out of it is shorter than one.
pub proof fn lemma_left_over(seconds: real, factor: real)
    requires
        seconds >= 0real,
        factor > 0real,
    ensures
        ({
            let n = truncated(seconds / factor);
            n >= 0 && 0real <= seconds - n as real * factor < factor
        }),
{
    let q = seconds / factor;
    assert(q >= 0real && q * factor == seconds) by (nonlinear_arith)
        requires
            seconds >= 0real,
            factor > 0real,
            q == seconds / factor,
    ;
    let n = truncated(q) as real;
    assert(n <= q < n + 1real);
    assert(0real <= seconds - n * factor < factor) by (nonlinear_arith)
        requires
            factor > 0real,
            q * factor == seconds,
            n <= q < n + 1real,
    ;
}

/// How far what is shown of the last unit may be from its amount: half a unit, or half of
/// its last decimal.
pub open spec fn tolerance(places: Option<int>) -> real {
    match places {
        Some(n) => 1real / 2real / power_of_ten(n as nat) as real,
        None => 1real / 2real,
    }
}

/// The amount of the last unit is shown to the nearest decimal, or to the nearest integer.
proof fn lemma_last_is_nearest(amount: real, places: Option<int>)
    requires
        amount >= 0real,
        places matches Some(n) ==> 0 <= n <= i32::MAX,
    ensures
        magnitude(last_shown(amount, places) - amount) <= tolerance(places),
{
    match places {
        Some(n) => {
            law_decimal_reads_back(amount, n);
            law_decimal_is_nearest(amount, n);
            let y = shown_value(amount, n);
            let p = power_of_ten(n as nat) as real;
            lemma_power_of_ten(n as nat);
            let half = 1real / 2real;
            assert(y - amount <= half / p && amount - y <= half / p) by (nonlinear_arith)
                requires
                    p > 0real,
                    y * p - amount * p <= half,
                    amount * p - y * p < half,
            ;
        },
        None => {
            lemma_not_negative(amount, 0);
        },
    }
}

/// What the parts of a duration stand for is as near to it as the last unit allows.
pub proof fn law_duration_is_nearest(
    seconds: real,
    units: Seq<UnitView>,
    places: Option<int>,
    any: bool,
)
    requires
        seconds >= 0real,
        units.len() > 0,
        are_positive(units),
        places matches Some(n) ==> 0 <= n <= i32::MAX,
    ensures
        magnitude(breakdown(seconds, units, places, any).1 - seconds) <= tolerance(places)
            * units.last().factor,
    decreases units.len(),
{
    let unit = units[0];
    let amount = seconds / unit.factor;
    let factor = unit.factor;
    assert(amount >= 0real && amount * factor == seconds) by (nonlinear_arith)
        requires
            seconds >= 0real,
            factor > 0real,
            amount == seconds / factor,
    ;
    if units.len() == 1 {
        lemma_last_is_nearest(amount, places);
        let y = last_shown(amount, places);
        let t = tolerance(places);
        assert(y * factor - seconds <= t * factor && seconds - y * factor <= t * factor)
            by (nonlinear_arith)
            requires
                factor > 0real,
                amount * factor == seconds,
                y - amount <= t,
                amount - y <= t,
        ;
    } else {
        lemma_left_over(seconds, factor);
        let n = truncated(amount);
        let rest = units.skip(1);
        assert forall|i: int| 0 <= i < rest.len() implies (#[trigger] rest[i]).factor > 0real by {
            assert(rest[i] == units[i + 1]);
        }
        law_duration_is_nearest(seconds - n as real * factor, rest, places, any || n != 0);
        assert(rest.last() == units.last());
    }
}

/// What is left of `seconds` for the unit at `k` once the units before it are taken out.
pub open spec fn left_at(seconds: real, units: Seq<UnitView>, k: int) -> real
    decreases k,
{
    if k <= 0 {
        seconds
    } else {
        let left = left_at(seconds, units, k - 1);
        let factor = units[k - 1].factor;
        left - truncated(left / factor) as real * factor
    }
}

/// What is left for a unit behind the first is less than one unit before it: none of its
/// whole amounts reaches the next longer unit.
pub proof fn law_amounts_stay_below_longer_unit(seconds: real, units: Seq<UnitView>, k: int)
    requires
        seconds >= 0real,
        are_positive(units),
        0 < k < units.len(),
    ensures
        ({
            let left = left_at(seconds, units, k);
            let factor = units[k].factor;
            0real <= left < units[k - 1].factor && truncated(left / factor) as real * factor
                < units[k - 1].factor
        }),
    decreases k,
{
    assert(units[k - 1].factor > 0real && units[k].factor > 0real);
    if k > 1 {
        law_amounts_stay_below_longer_unit(seconds, units, k - 1);
    }
    lemma_left_over(left_at(seconds, units, k - 1), units[k - 1].factor);
    lemma_left_over(left_at(seconds, units, k), units[k].factor);
}

/// What `left_at` says of the units behind the first, it says of what the first leaves.
proof fn lemma_left_at_behind(seconds: real, units: Seq<UnitView>, k: int)
    requires
        0 < k <= units.len(),
    ensures
        left_at(seconds, units, k) == left_at(left_at(seconds, units, 1), units.skip(1), k - 1),
    decreases k,
{
    reveal_with_fuel(left_at, 2);
    if k > 1 {
        lemma_left_at_behind(seconds, units, k - 1);
        assert(units.skip(1)[k - 2] == units[k - 1]);
    }
}

/// The parts of a duration are the whole amounts of what is left for each unit but the
/// last, and the last amount of what is left for it; the seconds that they stand for are
/// the sum of those of each.
pub proof fn law_parts_are_what_is_left(
    seconds: real,
    units: Seq<UnitView>,
    places: Option<int>,
    any: bool,
)
    requires
        units.len() > 0,
    ensures
        ({
            let k = units.len() - 1;
            let left = left_at(seconds, units, k);
            breakdown(seconds, units, places, any).1 == seconds - left + last_shown(
                left / units[k].factor,
                places,
            ) * units[k].factor
        }),
    decreases units.len(),
{
    reveal_with_fuel(left_at, 2);
    if units.len() > 1 {
        let rest = units.skip(1);
        let n = truncated(seconds / units[0].factor);
        let left = seconds - n as real * units[0].factor;
        law_parts_are_what_is_left(left, rest, places, any || n != 0);
        lemma_left_at_behind(seconds, units, units.len() - 1);
        assert(rest[rest.len() - 1] == units[units.len() - 1]);
    }
}

/// A negative duration is written as the positive one, with a minus sign behind the mark.
pub proof fn law_negative_duration_text(
    seconds: real,
    units: Seq<UnitView>,
    places: Option<int>,
    marked: bool,
)
    requires
        seconds > 0real,
    ensures
        ({
            let (parts, shown) = breakdown(seconds, units, places, false);
            let before = mark(!marked || shown == seconds);
            duration_in(seconds, units, places, marked) == before + spaced(parts)
                && duration_in(-seconds, units, places, marked) == before + "-"@ + spaced(parts)
        }),
{
    reveal_strlit("");
    let (parts, shown) = breakdown(seconds, units, places, false);
    let before = mark(!marked || shown == seconds);
    assert(magnitude(-seconds) == seconds);
    assert(before + ""@ + spaced(parts) =~= before + spaced(parts));
}

/// The signs of a number and of its quotient by a positive one are the same.
proof fn lemma_scaled(x: real, f: real, y: real)
    requires
        f > 0real,
    ensures
        x < 0real <==> x / f < 0real,
        magnitude(x / f) == magnitude(x) / f,
        magnitude(x) / f >= 0real,
        y * f == magnitude(x) <==> y == magnitude(x) / f,
{
    let q = x / f;
    let m = magnitude(x);
    assert(q * f == x) by (nonlinear_arith)
        requires
            f > 0real,
            q == x / f,
    ;
    assert(x < 0real <==> q < 0real) by (nonlinear_arith)
        requires
            f > 0real,
            q * f == x,
    ;
    assert((-x) / f == -q) by (nonlinear_arith)
        requires
            f > 0real,
            q == x / f,
    ;
    let p = m / f;
    assert(p * f == m && p >= 0real) by (nonlinear_arith)
        requires
            f > 0real,
            m >= 0real,
            p == m / f,
    ;
    assert(y * f == m ==> y == p) by (nonlinear_arith)
        requires
            f > 0real,
            p * f == m,
    ;
}

/// A duration that is converted to one unit is written as the number of those units, with
/// the decimals that are asked for or the usual ones, and the name of the unit. Left out is
/// the one unit that the line is written in, where `to` rounds to whole units.
pub proof fn law_text_in_one_unit(
    x: real,
    u: UnitView,
    dp: Option<int>,
    rounds: bool,
    explicit: Seq<UnitView>,
    registry: Seq<UnitDefView>,
)
    requires
        u.factor > 0real,
        places_of(dp) <= i32::MAX,
        dp is None && rounds ==> explicit != seq![u],
    ensures
        ({
            let target = TargetView { dp, units: Some(seq![u]), rounds };
            value_text(ValueView::Duration(x), target, explicit, registry) == number_text(
                x / u.factor,
                dp,
            ) + " "@ + u.name
        }),
{
    let target = TargetView { dp, units: Some(seq![u]), rounds };
    let places = places_of(dp);
    let size = magnitude(x);
    let amount = size / u.factor;
    let shown = shown_value(amount, places);
    lemma_scaled(x, u.factor, shown);
    law_decimal_reads_back(amount, places);
    let units = seq![u];
    let text = decimal_text(amount, places);
    let (parts, seconds) = breakdown(size, units, Some(places), false);
    assert(parts =~= seq![part(text, u)]);
    assert(spaced(parts) == part(text, u));
    assert(last_places(target, explicit) == Some(places));
    let before = mark(seconds == size) + minus_sign(x);
    assert(value_text(ValueView::Duration(x), target, explicit, registry) == before + part(
        text,
        u,
    ));
    assert(before + (text + " "@ + u.name) =~= before + text + " "@ + u.name);
}

/// `to` the one unit that the line is written in rounds to whole units, half of one up, and
/// leaves out the mark.
pub proof fn law_text_rounded_to_unit(
    x: real,
    u: UnitView,
    registry: Seq<UnitDefView>,
)
    requires
        u.factor > 0real,
    ensures
        ({
            let target = TargetView { dp: None, units: Some(seq![u]), rounds: true };
            exists|n: int|
                value_text(ValueView::Duration(x), target, seq![u], registry) == minus_sign(x)
                    + #[trigger] integer_text(n) + " "@ + u.name && n as real * u.factor
                    - magnitude(x) <= u.factor / 2real && magnitude(x) - n as real * u.factor
                    < u.factor / 2real
        }),
{
    let target = TargetView { dp: None, units: Some(seq![u]), rounds: true };
    let f = u.factor;
    let size = magnitude(x);
    let amount = size / f;
    lemma_scaled(x, f, 0real);
    let n = rounded(amount);
    let text = integer_text(n);
    let (parts, seconds) = breakdown(size, seq![u], None, false);
    assert(parts =~= seq![part(text, u)]);
    reveal_strlit("");
    let whole = value_text(ValueView::Duration(x), target, seq![u], registry);
    assert(whole =~= minus_sign(x) + integer_text(n) + " "@ + u.name);
    let m = n as real;
    let half = 1real / 2real;
    lemma_not_negative(amount, 0);
    assert(m - amount <= half && amount - m < half);
    assert(m * f - size <= f / 2real && size - m * f < f / 2real) by (nonlinear_arith)
        requires
            f > 0real,
            amount == size / f,
            half == 1real / 2real,
            m - amount <= half,
            amount - m < half,
    ;
}

/// The shortest of some units is one of them, and none is shorter.
proof fn lemma_shortest(units: Seq<UnitView>)
    requires
        units.len() > 0,
    ensures
        exists|i: int| 0 <= i < units.len() && (#[trigger] units[i]).factor == shortest(units),
        forall|i: int| 0 <= i < units.len() ==> (#[trigger] units[i]).factor >= shortest(units),
    decreases units.len(),
{
    if units.len() == 1 {
        assert(units[0].factor == shortest(units));
    } else {
        let before = units.drop_last();
        lemma_shortest(before);
        let k = choose|i: int|
            0 <= i < before.len() && (#[trigger] before[i]).factor == shortest(before);
        assert(units[k] == before[k]);
        assert(units[units.len() - 1] == units.last());
        assert forall|i: int| 0 <= i < units.len() implies (#[trigger] units[i]).factor
            >= shortest(units) by {
            if i < before.len() {
                assert(before[i] == units[i]);
            }
        }
    }
}

/// The units that are kept are those that are not shorter.
proof fn lemma_kept_units(units: Seq<UnitView>, least: real, u: UnitView)
    ensures
        not_shorter(units, least).contains(u) <==> units.contains(u) && u.factor >= least,
    decreases units.len(),
{
    if units.len() > 0 {
        let before = units.drop_last();
        let last = units.last();
        lemma_kept_units(before, least, u);
        assert(units =~= before.push(last));
        let kept = not_shorter(before, least);
        assert(units.contains(u) <==> before.contains(u) || u == last) by {
            if before.contains(u) {
                let i = choose|i: int| 0 <= i < before.len() && before[i] == u;
                assert(units[i] == u);
            }
            if u == last {
                assert(units[units.len() - 1] == u);
            }
            if units.contains(u) && u != last {
                let i = choose|i: int| 0 <= i < units.len() && units[i] == u;
                assert(before[i] == u);
            }
        }
        assert(kept.push(last).contains(u) <==> kept.contains(u) || u == last) by {
            let all = kept.push(last);
            if kept.contains(u) {
                let i = choose|i: int| 0 <= i < kept.len() && kept[i] == u;
                assert(all[i] == u);
            }
            if u == last {
                assert(all[kept.len() as int] == u);
            }
            if all.contains(u) && u != last {
                let i = choose|i: int| 0 <= i < all.len() && all[i] == u;
                assert(kept[i] == u);
            }
        }
    }
}

/// Where decimals are asked for and no units, a duration is written in those of days,
/// hours, minutes and seconds that are not shorter than every unit of the line; without
/// decimals, or where the line has no unit, in all four.
pub proof fn law_units_of_decimals(
    dp: Option<int>,
    rounds: bool,
    explicit: Seq<UnitView>,
    registry: Seq<UnitDefView>,
    u: UnitView,
)
    requires
        default_units(registry) is Some,
    ensures
        ({
            let target = TargetView { dp, units: None, rounds };
            let all = default_units(registry)->0;
            cascade(target, explicit, registry) matches Some(units) && if dp is Some
                && explicit.len() > 0 {
                units.contains(u) <==> all.contains(u) && exists|i: int|
                    0 <= i < explicit.len() && (#[trigger] explicit[i]).factor <= u.factor
            } else {
                units == all
            }
        }),
{
    if dp is Some && explicit.len() > 0 {
        lemma_shortest(explicit);
        lemma_kept_units(default_units(registry)->0, shortest(explicit), u);
    }
}

/// The first digit of a number above zero is not zero.
proof fn lemma_first_digit(n: nat)
    ensures
        n > 0 ==> natural_text(n)[0] != '0',
        n == 0 ==> natural_text(n) == seq!['0'],
        natural_text(n).len() > 0,
    decreases n,
{
    if n >= 10 {
        lemma_first_digit(n / 10);
        assert(natural_text(n)[0] == natural_text(n / 10)[0]);
    } else {
        assert(natural_text(n) =~= seq![digit_char(n as int)]);
    }
}

/// What is left without zeros at its end does not end with one.
proof fn lemma_last_digit(s: Seq<char>)
    ensures
        without_zeros(s).len() > 0 ==> without_zeros(s).last() != '0',
    decreases s.len(),
{
    if s.len() > 0 && s.last() == '0' {
        lemma_last_digit(s.drop_last());
    }
}

/// Whether a decimal is written without needless digits: no zero stands before another
/// digit of the whole part, none at the end of the fraction, and no point without one.
pub open spec fn is_shortest_decimal(s: Seq<char>) -> bool {
    &&& is_numeral(s)
    &&& s.len() > 1 && s[0] == '0' ==> s[1] == '.'
    &&& s.contains('.') ==> s.last() != '0'
}

/// Numbers are written without needless digits.
pub proof fn law_decimal_is_shortest(x: real, places: int)
    requires
        x >= 0real,
    ensures
        is_shortest_decimal(decimal_text(x, places)),
{
    lemma_not_negative(x, places);
    lemma_decimal_text_is_numeral(x, places);
    let n = if places < 0 {
        truncated(x) as nat
    } else {
        rounded(shifted(x, places)) as nat
    };
    let digits = natural_text(n);
    lemma_natural_text(n);
    lemma_first_digit(n);
    if places < 0 {
        lemma_no_point(digits);
    } else {
        let all = padded(digits, places);
        let whole = all.take(all.len() - places);
        let tail = all.skip(all.len() - places);
        let fraction = without_zeros(tail);
        lemma_last_digit(tail);
        let text = decimal_text(x, places);
        assert(text[0] == whole[0]);
        if digits.len() <= places {
            assert(all.len() == places + 1);
            assert(whole.len() == 1);
        } else {
            assert(all == digits);
            assert(whole[0] == digits[0]);
        }
        assert forall|i: int| 0 <= i < whole.len() implies is_digit(#[trigger] whole[i]) by {
            let pad = all.len() - digits.len();
            assert(whole[i] == all[i]);
            if i < pad {
                assert(all[i] == zeros(pad)[i]);
            } else {
                assert(all[i] == digits[i - pad]);
            }
        }
        if fraction.len() == 0 {
            lemma_no_point(whole);
        } else {
            assert(text.last() == fraction.last());
            assert(text[whole.len() as int] == '.');
        }
    }
}

/// A row of digits has no point.
proof fn lemma_no_point(s: Seq<char>)
    requires
        all_digits(s),
    ensures
        !s.contains('.'),
{
    if s.contains('.') {
        let i = choose|i: int| 0 <= i < s.len() && s[i] == '.';
        assert(is_digit(s[i]));
    }
}

/// A text without white space around it neither starts nor ends with any, and nothing but
/// white space was cut off.
pub proof fn law_trimmed(s: Seq<char>)
    ensures
        trimmed(s).len() > 0 ==> !is_space(trimmed(s)[0]) && !is_space(trimmed(s).last()),
        exists|i: int, j: int|
            #![trigger s.subrange(i, j)]
            0 <= i <= j <= s.len() && trimmed(s) == s.subrange(i, j) && (forall|k: int|
                0 <= k < i || j <= k < s.len() ==> is_space(#[trigger] s[k])),
{
    let p = |c: char| is_space(c);
    lemma_run(s, p);
    let i = run(s, p);
    let t = trim_start(s);
    lemma_trim_end(t);
    let n = trim_end(t).len() as int;
    let j = i + n;
    assert(trimmed(s) =~= s.subrange(i, j));
    assert forall|k: int| 0 <= k < i || j <= k < s.len() implies is_space(#[trigger] s[k]) by {
        if k < i {
            assert(p(s[k]));
        } else {
            assert(t[k - i] == s[k]);
        }
    }
    if n > 0 {
        assert(trimmed(s)[0] == t[0]);
        assert(t[0] == s[i]);
    }
}

/// What is cut off at the end is white space, and what is left does not end with any.
proof fn lemma_trim_end(s: Seq<char>)
    ensures
        trim_end(s).len() <= s.len(),
        trim_end(s) == s.take(trim_end(s).len() as int),
        forall|k: int| trim_end(s).len() <= k < s.len() ==> is_space(#[trigger] s[k]),
        trim_end(s).len() > 0 ==> !is_space(trim_end(s).last()),
    decreases s.len(),
{
    if s.len() > 0 && is_space(s.last()) {
        let before = s.drop_last();
        lemma_trim_end(before);
        assert(before.take(trim_end(s).len() as int) =~= s.take(trim_end(s).len() as int));
        assert forall|k: int| trim_end(s).len() <= k < s.len() implies is_space(
            #[trigger] s[k],
        ) by {
            if k < before.len() {
                assert(before[k] == s[k]);
            }
        }
    } else {
        assert(s.take(s.len() as int) =~= s);
    }
}

/// Where no number of decimals is asked for, a number is written with nine.
pub proof fn law_usual_decimals(x: real)
    ensures
        number_text(x, None) == number_text(x, Some(9int)),
{
}

/// A text is written as it is, a number in decimal, and a function by its name.
pub proof fn law_other_texts(
    x: real,
    s: Seq<char>,
    f: FuncView,
    args: Seq<ValueView>,
    target: TargetView,
    explicit: Seq<UnitView>,
    registry: Seq<UnitDefView>,
)
    ensures
        value_text(ValueView::String(s), target, explicit, registry) == s,
        value_text(ValueView::Number(x), target, explicit, registry) == number_text(x, target.dp),
        value_text(ValueView::Function(f, args), target, explicit, registry) == "<function "@
            + f.name + ">"@,
{
}

/// A duration that is converted to several units is written in those, and one that is
/// converted to none in days, hours, minutes and seconds: with the decimals that are asked
/// for in the last of them, or in whole numbers.
pub proof fn law_text_in_several_units(
    x: real,
    target: TargetView,
    explicit: Seq<UnitView>,
    registry: Seq<UnitDefView>,
)
    requires
        target.units is Some ==> target.units->0.len() != 1,
        target.units is None ==> default_units(registry) is Some && (target.dp is None
            || explicit.len() == 0),
    ensures
        value_text(ValueView::Duration(x), target, explicit, registry) == duration_in(
            x,
            match target.units {
                Some(units) => units,
                None => default_units(registry)->0,
            },
            target.dp,
            true,
        ),
{
}

/// Days, hours, minutes and seconds are the units that go by those letters, in that order.
pub proof fn law_usual_units(registry: Seq<UnitDefView>)
    ensures
        default_units(registry) is Some ==> {
            let units = default_units(registry)->0;
            &&& units.len() == 4
            &&& find_unit("d"@, registry) == Some(units[0])
            &&& find_unit("h"@, registry) == Some(units[1])
            &&& find_unit("m"@, registry) == Some(units[2])
            &&& find_unit("s"@, registry) == Some(units[3])
        },
{
}

/// What was asked of a value before matters only where nothing is asked of it now.
pub proof fn law_later_request_counts(
    v: ValueView,
    before: TargetView,
    target: TargetView,
    explicit: Seq<UnitView>,
    registry: Seq<UnitDefView>,
)
    requires
        !(v is Formatted),
    ensures
        ({
            let asked = ValueView::Formatted(Box::new(v), before);
            value_text(asked, target, explicit, registry) == value_text(
                v,
                if target.dp is Some || target.units is Some {
                    target
                } else {
                    before
                },
                explicit,
                registry,
            )
        }),
{
    reveal_with_fuel(bare, 2);
}

/// A negative number of decimals leaves the whole part alone: no more than the number, and
/// by less than one.
pub proof fn law_whole_part_alone(x: real, places: int)
    requires
        x >= 0real,
        places < 0,
    ensures
        exists|n: int|
            decimal_text(x, places) == #[trigger] integer_text(n) && 0 <= n && n as real <= x && x
                < n as real + 1real,
{
    lemma_not_negative(x, places);
    assert(decimal_text(x, places) == integer_text(truncated(x)));
}

} // verus!
