//! From a value to text.

use crate::decimal::{
    decimal_text, decimal_value, format_exact_decimal, law_decimal_is_nearest,
    law_decimal_reads_back, parse_decimal, round, rounded, shown_value,
};
use crate::number::{integer_text, magnitude, truncated, Integer, Rational};
use crate::syntax::{
    copy_units, defs_view, texts, units_view, ConversionTarget, FormatUnit, TargetView, UnitDef,
    UnitDefView, UnitView, Value, ValueView,
};
use crate::units::{find_unit, parse_single_unit};
use vstd::prelude::*;

verus! {

/// The value without what it is to be written like.
pub open spec fn bare(v: ValueView) -> ValueView
    decreases v,
{
    match v {
        ValueView::Formatted(inner, target) => bare(*inner),
        _ => v,
    }
}

/// What the value is to be written like, as was asked last.
pub open spec fn request(v: ValueView) -> Option<TargetView> {
    match v {
        ValueView::Formatted(inner, target) => Some(target),
        _ => None,
    }
}

/// The target that asks for nothing.
pub open spec fn no_target() -> TargetView {
    TargetView { dp: None, units: None, rounds: false }
}

/// Whether the target asks for nothing.
pub open spec fn asks_nothing(target: TargetView) -> bool {
    target.dp is None && target.units is None
}

/// What `v` is written like where `top` is asked for: `top`, unless it asks for nothing.
pub open spec fn chosen_target(top: TargetView, v: ValueView) -> TargetView {
    if !asks_nothing(top) {
        top
    } else {
        match request(v) {
            Some(target) => target,
            None => no_target(),
        }
    }
}

/// The mark before a text that does not show the exact value.
pub open spec fn mark(exact: bool) -> Seq<char> {
    if exact {
        ""@
    } else {
        "approx. "@
    }
}

/// The sign before the text of a value below zero.
pub open spec fn minus_sign(x: real) -> Seq<char> {
    if x < 0real {
        "-"@
    } else {
        ""@
    }
}

/// How many decimals a number is written with where nothing is asked for.
pub open spec fn default_places() -> int {
    9
}

/// The decimals asked for, or the usual number of them.
pub open spec fn places_of(dp: Option<int>) -> int {
    match dp {
        Some(n) => n,
        None => default_places(),
    }
}

/// A number in decimal, marked where the decimals do not show all of it.
pub open spec fn number_text(x: real, dp: Option<int>) -> Seq<char> {
    let places = places_of(dp);
    let size = magnitude(x);
    mark(shown_value(size, places) == size) + minus_sign(x) + decimal_text(size, places)
}

/// The days, hours, minutes and seconds of the registry.
pub open spec fn default_units(registry: Seq<UnitDefView>) -> Option<Seq<UnitView>> {
    let d = find_unit("d"@, registry);
    let h = find_unit("h"@, registry);
    let m = find_unit("m"@, registry);
    let s = find_unit("s"@, registry);
    if d is Some && h is Some && m is Some && s is Some {
        Some(seq![d->0, h->0, m->0, s->0])
    } else {
        None
    }
}

/// The length of the shortest unit.
pub open spec fn shortest(units: Seq<UnitView>) -> real
    decreases units.len(),
{
    if units.len() <= 1 {
        units[0].factor
    } else {
        let least = shortest(units.drop_last());
        if units.last().factor < least {
            units.last().factor
        } else {
            least
        }
    }
}

/// The units that are not shorter than `least`.
pub open spec fn not_shorter(units: Seq<UnitView>, least: real) -> Seq<UnitView>
    decreases units.len(),
{
    if units.len() == 0 {
        Seq::empty()
    } else if units.last().factor >= least {
        not_shorter(units.drop_last(), least).push(units.last())
    } else {
        not_shorter(units.drop_last(), least)
    }
}

/// The units that a duration is written in: those asked for; or else days, hours,
/// minutes and seconds, of which decimals need only those that are not shorter than
/// every unit of the input. `None` where the registry lacks one of the four.
pub open spec fn cascade(
    target: TargetView,
    explicit: Seq<UnitView>,
    registry: Seq<UnitDefView>,
) -> Option<Seq<UnitView>> {
    match target.units {
        Some(units) => Some(units),
        None => match default_units(registry) {
            None => None,
            Some(units) => if target.dp is Some && explicit.len() > 0 {
                Some(not_shorter(units, shortest(explicit)))
            } else {
                Some(units)
            },
        },
    }
}

/// Whether a duration is rounded to whole units and not marked for it: where `to` asks
/// for the one unit that the input is written in.
pub open spec fn rounds_whole(target: TargetView, explicit: Seq<UnitView>) -> bool {
    target.rounds && target.dp is None && target.units is Some && target.units->0.len() == 1
        && explicit == target.units->0
}

/// The decimals of the last unit, or `None` where it is written as an integer.
pub open spec fn last_places(target: TargetView, explicit: Seq<UnitView>) -> Option<int> {
    if target.dp is Some {
        target.dp
    } else if target.units is Some && target.units->0.len() == 1 && !rounds_whole(
        target,
        explicit,
    ) {
        Some(default_places())
    } else {
        None
    }
}

/// An amount and its unit.
pub open spec fn part(amount: Seq<char>, unit: UnitView) -> Seq<char> {
    amount + " "@ + unit.name
}

/// The text of the amount of the last unit.
pub open spec fn last_amount(x: real, places: Option<int>) -> Seq<char> {
    match places {
        Some(n) => decimal_text(x, n),
        None => integer_text(rounded(x)),
    }
}

/// The number that the text of the amount of the last unit stands for.
pub open spec fn last_shown(x: real, places: Option<int>) -> real {
    match places {
        Some(n) => match decimal_value(decimal_text(x, n)) {
            Ok(y) => y,
            Err(e) => 0real,
        },
        None => rounded(x) as real,
    }
}

/// The parts that `seconds` is written in, from the first of `units` to the last, and the
/// seconds that they stand for. Amounts of zero are left out, but for the last where
/// nothing stands before it: `any` says whether something does.
pub open spec fn breakdown(
    seconds: real,
    units: Seq<UnitView>,
    places: Option<int>,
    any: bool,
) -> (Seq<Seq<char>>, real)
    decreases units.len(),
{
    if units.len() == 0 {
        (Seq::empty(), 0real)
    } else {
        let unit = units[0];
        let amount = seconds / unit.factor;
        if units.len() == 1 {
            let text = last_amount(amount, places);
            (
                if any && text == "0"@ {
                    Seq::empty()
                } else {
                    seq![part(text, unit)]
                },
                last_shown(amount, places) * unit.factor,
            )
        } else {
            let n = truncated(amount);
            let seconds_shown = n as real * unit.factor;
            let (rest, shown) = breakdown(
                seconds - seconds_shown,
                units.skip(1),
                places,
                any || n != 0,
            );
            (
                if n == 0 {
                    rest
                } else {
                    seq![part(integer_text(n), unit)] + rest
                },
                seconds_shown + shown,
            )
        }
    }
}

/// The parts with a space between each two.
pub open spec fn spaced(parts: Seq<Seq<char>>) -> Seq<char>
    decreases parts.len(),
{
    if parts.len() == 0 {
        Seq::empty()
    } else if parts.len() == 1 {
        parts[0]
    } else {
        spaced(parts.drop_last()) + " "@ + parts.last()
    }
}

/// A duration in `units`, marked where those do not show all of it.
pub open spec fn duration_in(
    seconds: real,
    units: Seq<UnitView>,
    places: Option<int>,
    marked: bool,
) -> Seq<char> {
    let size = magnitude(seconds);
    let (parts, shown) = breakdown(size, units, places, false);
    mark(!marked || shown == size) + minus_sign(seconds) + spaced(parts)
}

/// Whether no unit is of length zero.
pub open spec fn no_zero_unit(units: Seq<UnitView>) -> bool {
    forall|i: int| 0 <= i < units.len() ==> (#[trigger] units[i]).factor != 0real
}

/// Whether there are units that can measure a duration.
pub open spec fn can_measure(units: Option<Seq<UnitView>>) -> bool {
    units is Some && no_zero_unit(units->0)
}

/// The text of a duration.
pub open spec fn duration_text(
    seconds: real,
    target: TargetView,
    explicit: Seq<UnitView>,
    registry: Seq<UnitDefView>,
) -> Seq<char> {
    duration_in(
        seconds,
        cascade(target, explicit, registry)->0,
        last_places(target, explicit),
        !rounds_whole(target, explicit),
    )
}

/// Whether the value can be written: a duration needs units that can measure it.
pub open spec fn is_writable(
    v: ValueView,
    top: TargetView,
    explicit: Seq<UnitView>,
    registry: Seq<UnitDefView>,
) -> bool {
    bare(v) is Duration ==> can_measure(cascade(chosen_target(top, v), explicit, registry))
}

/// The text of a value.
pub open spec fn value_text(
    v: ValueView,
    top: TargetView,
    explicit: Seq<UnitView>,
    registry: Seq<UnitDefView>,
) -> Seq<char> {
    let target = chosen_target(top, v);
    match bare(v) {
        ValueView::String(s) => s,
        ValueView::Number(x) => number_text(x, target.dp),
        ValueView::Duration(x) => duration_text(x, target, explicit, registry),
        ValueView::Function(f, args) => "<function "@ + f.name + ">"@,
        ValueView::Formatted(inner, t) => Seq::empty(),
    }
}

/// Nothing is left of what a value is to be written like in a bare value.
pub proof fn lemma_bare(v: ValueView)
    ensures
        !(bare(v) is Formatted),
        bare(bare(v)) == bare(v),
    decreases v,
{
    if let ValueView::Formatted(inner, target) = v {
        lemma_bare(*inner);
    }
}

impl Value {
    /// Parts the value from what it is to be written like, as was asked last.
    pub fn unwrap(self) -> (r: (Value, Option<ConversionTarget>))
        ensures
            r.0@ == bare(self@),
            match r.1 {
                Some(target) => request(self@) == Some(target@),
                None => request(self@) is None,
            },
        decreases self,
    {
        match self {
            Value::Formatted(inner, target) => {
                let (v, _) = (*inner).unwrap();
                (v, Some(target))
            },
            v => (v, None),
        }
    }
}

impl ConversionTarget {
    /// The target that asks for nothing.
    pub fn none() -> (r: ConversionTarget)
        ensures
            r@ == no_target(),
    {
        ConversionTarget { dp: None, units: None, rounds: false }
    }

    /// Whether the target asks for nothing.
    pub fn is_empty(&self) -> (r: bool)
        ensures
            r == asks_nothing(self@),
    {
        self.dp.is_none() && self.units.is_none()
    }
}

/// What `v` is written like where `top` is asked for.
fn choose_target(top: &ConversionTarget, asked: &Option<ConversionTarget>) -> (r: ConversionTarget)
    ensures
        r@ == (if !asks_nothing(top@) {
            top@
        } else {
            match *asked {
                Some(target) => target@,
                None => no_target(),
            }
        }),
{
    if !top.is_empty() {
        top.clone()
    } else {
        match asked {
            Some(target) => target.clone(),
            None => ConversionTarget::none(),
        }
    }
}

/// The units of the registry that durations are usually written in.
fn find_default_units(registry: &[UnitDef]) -> (r: Option<Vec<FormatUnit>>)
    ensures
        match r {
            Some(units) => default_units(defs_view(registry@)) == Some(units_view(units@)),
            None => default_units(defs_view(registry@)) is None,
        },
{
    match (
        parse_single_unit("d", registry),
        parse_single_unit("h", registry),
        parse_single_unit("m", registry),
        parse_single_unit("s", registry),
    ) {
        (Ok(d), Ok(h), Ok(m), Ok(s)) => {
            let mut units: Vec<FormatUnit> = Vec::new();
            units.push(d);
            units.push(h);
            units.push(m);
            units.push(s);
            assert(units_view(units@) =~= seq![d@, h@, m@, s@]);
            Some(units)
        },
        _ => None,
    }
}

/// The length of the shortest unit.
fn find_shortest(units: &[FormatUnit]) -> (r: Rational)
    requires
        units@.len() > 0,
    ensures
        r@ == shortest(units_view(units@)),
{
    let ghost all = units_view(units@);
    let mut least: Rational = units[0].factor.clone();
    let mut i: usize = 1;
    assert(all.take(1)[0] == units@[0]@);
    while i < units.len()
        invariant
            all == units_view(units@),
            1 <= i <= units@.len(),
            least@ == shortest(all.take(i as int)),
        decreases units@.len() - i,
    {
        proof {
            assert(all.take(i + 1).drop_last() == all.take(i as int));
            assert(all.take(i + 1).last() == units@[i as int]@);
        }
        if units[i].factor.is_less(&least) {
            least = units[i].factor.clone();
        }
        i = i + 1;
    }
    assert(all.take(i as int) == all);
    least
}

/// The units that are not shorter than `least`.
fn keep_not_shorter(units: &Vec<FormatUnit>, least: &Rational) -> (r: Vec<FormatUnit>)
    ensures
        units_view(r@) == not_shorter(units_view(units@), least@),
{
    let ghost all = units_view(units@);
    let mut kept: Vec<FormatUnit> = Vec::new();
    let mut i: usize = 0;
    assert(units_view(kept@) =~= Seq::<UnitView>::empty());
    while i < units.len()
        invariant
            all == units_view(units@),
            i <= units@.len(),
            units_view(kept@) == not_shorter(all.take(i as int), least@),
        decreases units@.len() - i,
    {
        let ghost done = units_view(kept@);
        proof {
            assert(all.take(i + 1).drop_last() == all.take(i as int));
            assert(all.take(i + 1).last() == units@[i as int]@);
        }
        if !units[i].factor.is_less(least) {
            kept.push(units[i].clone());
            assert(units_view(kept@) =~= done.push(units@[i as int]@));
        }
        i = i + 1;
    }
    assert(all.take(i as int) == all);
    kept
}

/// The units that a duration is written in.
fn find_cascade(target: &ConversionTarget, explicit_units: &[FormatUnit], registry: &[UnitDef]) -> (r:
    Option<Vec<FormatUnit>>)
    ensures
        match r {
            Some(units) => cascade(target@, units_view(explicit_units@), defs_view(registry@))
                == Some(units_view(units@)),
            None => cascade(target@, units_view(explicit_units@), defs_view(registry@)) is None,
        },
{
    match &target.units {
        Some(units) => Some(copy_units(units.as_slice())),
        None => match find_default_units(registry) {
            None => None,
            Some(units) => if target.dp.is_some() && explicit_units.len() > 0 {
                Some(keep_not_shorter(&units, &find_shortest(explicit_units)))
            } else {
                Some(units)
            },
        },
    }
}

/// Whether no unit is of length zero.
fn are_measures(units: &Vec<FormatUnit>) -> (r: bool)
    ensures
        r == no_zero_unit(units_view(units@)),
{
    let ghost all = units_view(units@);
    let mut i: usize = 0;
    while i < units.len()
        invariant
            all == units_view(units@),
            i <= units@.len(),
            forall|j: int| 0 <= j < i ==> (#[trigger] all[j]).factor != 0real,
        decreases units@.len() - i,
    {
        assert(all[i as int] == units@[i as int]@);
        if units[i].factor.is_zero() {
            return false;
        }
        i = i + 1;
    }
    true
}

/// Whether `to` asks for the one unit that the input is written in.
fn is_rounding(target: &ConversionTarget, explicit_units: &[FormatUnit]) -> (r: bool)
    ensures
        r == rounds_whole(target@, units_view(explicit_units@)),
{
    match &target.units {
        Some(units) => {
            if target.rounds && target.dp.is_none() && units.len() == 1 && explicit_units.len() == 1
            {
                let ghost a = units_view(units@);
                let ghost b = units_view(explicit_units@);
                proof {
                    assert(a[0] == units@[0]@ && b[0] == explicit_units@[0]@);
                    if a[0] == b[0] {
                        assert(a =~= b);
                    }
                }
                units[0].name == explicit_units[0].name && units[0].factor.is_equal(
                    &explicit_units[0].factor,
                )
            } else {
                false
            }
        },
        None => false,
    }
}

/// Whether the value can be written: a duration needs units that can measure it.
pub fn can_format(
    result: &Value,
    top: &ConversionTarget,
    explicit_units: &[FormatUnit],
    registry: &[UnitDef],
) -> (r: bool)
    ensures
        r == is_writable(
            result@,
            top@,
            units_view(explicit_units@),
            defs_view(registry@),
        ),
{
    let (val, asked) = result.clone().unwrap();
    match val {
        Value::Duration(_) => {
            let target: ConversionTarget = choose_target(top, &asked);
            match find_cascade(&target, explicit_units, registry) {
                Some(units) => are_measures(&units),
                None => false,
            }
        },
        _ => true,
    }
}

/// What stands before the text of `x`: the mark where it is not exact, and the sign.
fn mark_and_sign(exact: bool, x: &Rational) -> (r: String)
    ensures
        r@ == mark(exact) + minus_sign(x@),
{
    let mut text: String = String::new();
    if !exact {
        text.append("approx. ");
    }
    if x.is_negative() {
        text.append("-");
    }
    proof {
        reveal_strlit("");
        assert(text@ =~= mark(exact) + minus_sign(x@));
    }
    text
}

/// A number in decimal, marked where the decimals do not show all of it.
fn format_number(x: &Rational, dp: Option<i32>) -> (r: String)
    ensures
        r@ == number_text(
            x@,
            match dp {
                Some(n) => Some(n as int),
                None => None,
            },
        ),
{
    let abs: Rational = x.size();
    let places: i32 = match dp {
        Some(n) => n,
        None => 9,
    };
    let (val_str, cut) = format_exact_decimal(&abs, places);
    proof {
        law_decimal_reads_back(abs@, places as int);
        if dp is None {
            law_decimal_is_nearest(abs@, places as int);
        }
    }
    let mut is_approx: bool = cut;
    if dp.is_some() {
        let parsed: Rational = match parse_decimal(val_str.as_str()) {
            Ok(y) => y,
            Err(_) => Rational::from_i64(0),
        };
        is_approx = !abs.is_equal(&parsed);
    }
    let mut text: String = mark_and_sign(!is_approx, x);
    text.append(val_str.as_str());
    text
}

/// An amount and its unit.
fn make_part(amount: String, unit: &FormatUnit) -> (r: String)
    ensures
        r@ == part(amount@, unit@),
{
    let mut text: String = amount;
    text.append(" ");
    text.append(unit.name.as_str());
    text
}

/// The parts with a space between each two.
fn join_parts(parts: &Vec<String>) -> (r: String)
    ensures
        r@ == spaced(texts(parts@)),
{
    let ghost all = texts(parts@);
    let mut text: String = String::new();
    let mut i: usize = 0;
    while i < parts.len()
        invariant
            all == texts(parts@),
            i <= parts@.len(),
            text@ == spaced(all.take(i as int)),
        decreases parts@.len() - i,
    {
        proof {
            assert(all.take(i + 1).drop_last() == all.take(i as int));
            assert(all.take(i + 1).last() == parts@[i as int]@);
        }
        if i > 0 {
            text.append(" ");
            text.append(parts[i].as_str());
        } else {
            text.append(parts[i].as_str());
            assert(text@ =~= parts@[0]@);
        }
        i = i + 1;
    }
    assert(all.take(i as int) == all);
    text
}

/// The amount of the last unit, and the number that its text stands for.
fn format_last(amount: &Rational, places: Option<i32>) -> (r: (String, Rational))
    ensures
        ({
            let n = match places {
                Some(n) => Some(n as int),
                None => None,
            };
            r.0@ == last_amount(amount@, n) && r.1@ == last_shown(amount@, n)
        }),
{
    match places {
        Some(n) => {
            let (text, _) = format_exact_decimal(amount, n);
            let shown: Rational = match parse_decimal(text.as_str()) {
                Ok(y) => y,
                Err(_) => Rational::from_i64(0),
            };
            (text, shown)
        },
        None => {
            let n: Integer = round(amount);
            (n.text(), Rational::from_integer(n))
        },
    }
}

/// Writes a duration in the units that it is asked for in, or in those that fit it.
pub fn format_duration(
    total_seconds: &Rational,
    conv_req: &ConversionTarget,
    explicit_units: &[FormatUnit],
    registry: &[UnitDef],
) -> (r: String)
    requires
        can_measure(cascade(conv_req@, units_view(explicit_units@), defs_view(registry@))),
    ensures
        r@ == duration_text(
            total_seconds@,
            conv_req@,
            units_view(explicit_units@),
            defs_view(registry@),
        ),
{
    let total: Rational = total_seconds.size();
    let units: Vec<FormatUnit> = match find_cascade(conv_req, explicit_units, registry) {
        Some(units) => units,
        None => return String::new(),
    };
    let whole: bool = is_rounding(conv_req, explicit_units);
    let single: bool = match &conv_req.units {
        Some(asked) => asked.len() == 1,
        None => false,
    };
    let places: Option<i32> = if conv_req.dp.is_some() {
        conv_req.dp
    } else if single && !whole {
        Some(9)
    } else {
        None
    };
    let ghost n_places: Option<int> = match places {
        Some(n) => Some(n as int),
        None => None,
    };
    assert(n_places == last_places(conv_req@, units_view(explicit_units@)));
    let ghost all = units_view(units@);
    let mut parts: Vec<String> = Vec::new();
    let mut remaining: Rational = total.clone();
    let mut reconstructed: Rational = Rational::from_i64(0);
    let mut i: usize = 0;
    proof {
        assert(all.skip(0) == all);
        assert(texts(parts@) + breakdown(total@, all, n_places, false).0 =~= breakdown(
            total@,
            all,
            n_places,
            false,
        ).0);
    }
    while i < units.len()
        invariant
            all == units_view(units@),
            no_zero_unit(all),
            n_places == (match places {
                Some(n) => Some(n as int),
                None => None,
            }),
            i <= units@.len(),
            ({
                let (more, shown) = breakdown(
                    remaining@,
                    all.skip(i as int),
                    n_places,
                    parts@.len() > 0,
                );
                breakdown(total@, all, n_places, false) == (
                    texts(parts@) + more,
                    reconstructed@ + shown,
                )
            }),
        decreases units@.len() - i,
    {
        let ghost rest = all.skip(i as int);
        let ghost done = texts(parts@);
        proof {
            assert(all[i as int].factor != 0real);
            assert(rest[0] == units@[i as int]@);
            assert(rest.skip(1) == all.skip(i + 1));
        }
        let unit: &FormatUnit = &units[i];
        let amount: Rational = remaining.divided_by(&unit.factor);
        if i == units.len() - 1 {
            let (text, shown) = format_last(&amount, places);
            let is_zero: bool = text == "0".to_owned();
            if !is_zero || parts.len() == 0 {
                parts.push(make_part(text, unit));
                proof {
                    assert(texts(parts@) =~= done.push(part(text@, unit@)));
                    assert(texts(parts@) =~= done + seq![part(text@, unit@)]);
                }
            }
            reconstructed = reconstructed.plus(&shown.times(&unit.factor));
            proof {
                assert(texts(parts@) + Seq::<Seq<char>>::empty() =~= texts(parts@));
                assert(done + Seq::<Seq<char>>::empty() =~= done);
            }
        } else {
            let whole_amount: Integer = amount.to_integer();
            let text: String = whole_amount.text();
            let count: Rational = Rational::from_integer(whole_amount);
            let seconds_shown: Rational = count.times(&unit.factor);
            let ghost any = parts@.len() > 0;
            let ghost left = remaining@ - seconds_shown@;
            if !count.is_zero() {
                parts.push(make_part(text, unit));
                proof {
                    let (more, shown) = breakdown(left, all.skip(i + 1), n_places, true);
                    assert(texts(parts@) =~= done.push(part(text@, unit@)));
                    assert(done + (seq![part(text@, unit@)] + more) =~= texts(parts@) + more);
                }
            }
            reconstructed = reconstructed.plus(&seconds_shown);
            remaining = remaining.minus(&seconds_shown);
        }
        i = i + 1;
    }
    proof {
        assert(texts(parts@) + Seq::<Seq<char>>::empty() =~= texts(parts@));
    }
    let is_approx: bool = !whole && !total.is_equal(&reconstructed);
    let mut text: String = mark_and_sign(!is_approx, total_seconds);
    text.append(join_parts(&parts).as_str());
    text
}

/// Writes a value: as `top_conv_req` asks, or as the value itself does.
pub fn format_value(
    result: &Value,
    top_conv_req: &ConversionTarget,
    explicit_units: &[FormatUnit],
    registry: &[UnitDef],
) -> (r: String)
    requires
        is_writable(
            result@,
            top_conv_req@,
            units_view(explicit_units@),
            defs_view(registry@),
        ),
    ensures
        r@ == value_text(
            result@,
            top_conv_req@,
            units_view(explicit_units@),
            defs_view(registry@),
        ),
{
    let (val, val_req) = result.clone().unwrap();
    let conv_req: ConversionTarget = choose_target(top_conv_req, &val_req);
    match val {
        Value::String(s) => s,
        Value::Number(x) => format_number(&x, conv_req.dp),
        Value::Duration(x) => format_duration(&x, &conv_req, explicit_units, registry),
        Value::Function(f, _) => {
            let mut text: String = "<function ".to_owned();
            text.append(f.name.as_str());
            text.append(">");
            text
        },
        Value::Formatted(..) => {
            proof {
                lemma_bare(result@);
            }
            String::new()
        },
    }
}

} // verus!
