//! Laws of entering again what was written.

use crate::decimal::{
    decimal_text, decimal_value, law_decimal_reads_back, lemma_natural_text, rounded,
    shown_value,
};
use crate::eval::{eval_at, pair_at, Env, ScopeView};
use crate::format::{
    breakdown, default_places, default_units, duration_in, last_amount, last_shown, mark,
    minus_sign, no_target, number_text, part, spaced, value_text,
};
use crate::laws::answers::{is_sound_registry, lemma_sound_is_writable};
use crate::laws::lines::{lemma_cleaned_is_same, spaces_part_operands};
use crate::laws::sessions::{lemma_one_token, lemma_parse_operand};
use crate::laws::texts::{
    are_positive, is_numeral, law_number_text_reads_back, lemma_decimal_text_is_numeral,
    lemma_digits_are_numeral, lemma_left_over, lemma_not_negative, number_shown,
};
use crate::lexer::{
    ends_operand, first_token, in_class, lemma_space_run_is, lexed, starts_operand, Class,
};
use crate::number::{integer_text, is_digit, magnitude, natural_text, truncated};
use crate::parser::{
    extended, joint_at, parsed, Operator, CONCATENATION, PRIMARY, SPACED_APPLICATION,
    TIGHT_APPLICATION,
};
use crate::session::{assign_at, collected, line_at, request_of, scope_of, Answer, RequestView};
use crate::syntax::{ExprView, FuncView, TokenView, UnitDefView, UnitView, ValueView};
use crate::text::{is_letter, is_space, lemma_run_is, same_word};
use crate::units::{combined, find_unit, formed, unit_behind, with_unit};
use vstd::prelude::*;

verus! {

/// An amount and its unit.
pub struct Entry {
    pub amount: Seq<char>,
    pub unit: UnitView,
}

/// The amounts and units that `seconds` is written in.
pub open spec fn entries(seconds: real, units: Seq<UnitView>, places: Option<int>, any: bool) -> Seq<
    Entry,
>
    decreases units.len(),
{
    if units.len() == 0 {
        Seq::empty()
    } else {
        let unit = units[0];
        let amount = seconds / unit.factor;
        if units.len() == 1 {
            let text = last_amount(amount, places);
            if any && text == "0"@ {
                Seq::empty()
            } else {
                seq![Entry { amount: text, unit }]
            }
        } else {
            let n = truncated(amount);
            let rest = entries(
                seconds - n as real * unit.factor,
                units.skip(1),
                places,
                any || n != 0,
            );
            if n == 0 {
                rest
            } else {
                seq![Entry { amount: integer_text(n), unit }] + rest
            }
        }
    }
}

/// The text of each entry.
pub open spec fn entry_texts(list: Seq<Entry>) -> Seq<Seq<char>> {
    list.map_values(|e: Entry| part(e.amount, e.unit))
}

/// The seconds that an entry stands for.
pub open spec fn entry_seconds(e: Entry) -> real {
    match decimal_value(e.amount) {
        Ok(x) => x * e.unit.factor,
        Err(m) => 0real,
    }
}

/// The seconds that the entries stand for.
pub open spec fn all_seconds(list: Seq<Entry>) -> real
    decreases list.len(),
{
    if list.len() == 0 {
        0real
    } else {
        entry_seconds(list[0]) + all_seconds(list.skip(1))
    }
}

/// Whether the text can be entered as a word: it is made of letters, and does not mean
/// something else.
pub open spec fn is_plain_word(s: Seq<char>) -> bool {
    &&& s.len() > 0
    &&& forall|i: int| 0 <= i < s.len() ==> is_letter(#[trigger] s[i])
    &&& !same_word(s, "as"@)
    &&& !same_word(s, "to"@)
    &&& !same_word(s, "now"@)
}

/// Whether the unit can be entered by its name.
pub open spec fn is_enterable(u: UnitView, registry: Seq<UnitDefView>) -> bool {
    is_plain_word(u.name) && find_unit(u.name, registry) == Some(u)
}

/// Whether all units can be entered by their names.
pub open spec fn are_enterable(units: Seq<UnitView>, registry: Seq<UnitDefView>) -> bool {
    forall|i: int| 0 <= i < units.len() ==> is_enterable(#[trigger] units[i], registry)
}

/// Whether the entry can be entered: its amount is a numeral that reads as a number, and
/// its unit goes by its name.
pub open spec fn is_entry(e: Entry, registry: Seq<UnitDefView>) -> bool {
    is_numeral(e.amount) && decimal_value(e.amount) is Ok && is_enterable(e.unit, registry)
}

/// Whether all entries can be entered.
pub open spec fn are_entries(list: Seq<Entry>, registry: Seq<UnitDefView>) -> bool {
    forall|i: int| 0 <= i < list.len() ==> is_entry(#[trigger] list[i], registry)
}

/// The decimal digits of a number read as the number.
proof fn lemma_natural_reads_back(n: nat)
    ensures
        is_numeral(natural_text(n)),
        decimal_value(natural_text(n)) == Ok::<real, Seq<char>>(n as real),
{
    lemma_natural_text(n);
    lemma_digits_are_numeral(natural_text(n));
    law_decimal_reads_back(n as real, -1);
}

/// The amount of the last unit is a numeral that reads as the number that is shown.
proof fn lemma_last_amount(amount: real, places: Option<int>)
    requires
        amount >= 0real,
        places matches Some(n) ==> n <= i32::MAX,
    ensures
        is_numeral(last_amount(amount, places)),
        decimal_value(last_amount(amount, places)) == Ok::<real, Seq<char>>(
            last_shown(amount, places),
        ),
{
    lemma_not_negative(amount, 0);
    match places {
        Some(n) => {
            lemma_decimal_text_is_numeral(amount, n);
            law_decimal_reads_back(amount, n);
        },
        None => {
            lemma_natural_reads_back(rounded(amount) as nat);
        },
    }
}

/// The parts of a duration are entries that stand for what is shown of it.
proof fn lemma_entries(
    seconds: real,
    units: Seq<UnitView>,
    places: Option<int>,
    any: bool,
    registry: Seq<UnitDefView>,
)
    requires
        seconds >= 0real,
        are_positive(units),
        are_enterable(units, registry),
        places matches Some(n) ==> n <= i32::MAX,
    ensures
        breakdown(seconds, units, places, any).0 == entry_texts(
            entries(seconds, units, places, any),
        ),
        breakdown(seconds, units, places, any).1 == all_seconds(
            entries(seconds, units, places, any),
        ),
        are_entries(entries(seconds, units, places, any), registry),
        !any && units.len() > 0 ==> entries(seconds, units, places, any).len() > 0,
    decreases units.len(),
{
    let list = entries(seconds, units, places, any);
    let none = Seq::<Entry>::empty();
    assert(entry_texts(none) =~= Seq::<Seq<char>>::empty());
    if units.len() > 0 {
        let unit = units[0];
        let factor = unit.factor;
        let amount = seconds / factor;
        assert(is_enterable(units[0], registry));
        assert(amount >= 0real) by (nonlinear_arith)
            requires
                seconds >= 0real,
                factor > 0real,
                amount == seconds / factor,
        ;
        if units.len() == 1 {
            lemma_last_amount(amount, places);
            let text = last_amount(amount, places);
            let e = Entry { amount: text, unit };
            assert(entry_texts(seq![e]) =~= seq![part(text, unit)]);
            assert(seq![e].skip(1) =~= none);
            assert(all_seconds(none) == 0real);
            assert(all_seconds(seq![e]) == entry_seconds(e));
            if any && text == "0"@ {
                reveal_strlit("0");
                assert("0"@ =~= natural_text(0));
                lemma_natural_reads_back(0);
                assert(0real * factor == 0real) by (nonlinear_arith);
            }
        } else {
            lemma_left_over(seconds, factor);
            let n = truncated(amount);
            let left = seconds - n as real * factor;
            let rest = units.skip(1);
            assert forall|i: int| 0 <= i < rest.len() implies (#[trigger] rest[i]).factor
                > 0real by {
                assert(rest[i] == units[i + 1]);
            }
            assert forall|i: int| 0 <= i < rest.len() implies is_enterable(
                #[trigger] rest[i],
                registry,
            ) by {
                assert(rest[i] == units[i + 1]);
            }
            lemma_entries(left, rest, places, any || n != 0, registry);
            let more = entries(left, rest, places, any || n != 0);
            if n == 0 {
                assert(0real * factor == 0real) by (nonlinear_arith);
            } else {
                let e = Entry { amount: integer_text(n), unit };
                lemma_natural_reads_back(n as nat);
                assert(list =~= seq![e] + more);
                assert(list.skip(1) =~= more);
                assert(list[0] == e);
                assert(entry_texts(list) =~= seq![part(e.amount, unit)] + entry_texts(more));
                assert forall|i: int| 0 <= i < list.len() implies is_entry(
                    #[trigger] list[i],
                    registry,
                ) by {
                    if i > 0 {
                        assert(list[i] == more[i - 1]);
                    }
                }
            }
        }
    }
}

/// The digits of a number other than zero are not those of zero.
proof fn lemma_not_zero_text(n: int)
    requires
        n > 0,
    ensures
        integer_text(n) != "0"@,
{
    reveal_strlit("0");
    assert("0"@ =~= natural_text(0));
    lemma_natural_reads_back(0);
    lemma_natural_reads_back(n as nat);
}

/// The parts of a duration are its amounts and units, and an amount of zero is left out,
/// unless nothing else is written.
pub proof fn law_zero_amounts_are_left_out(
    seconds: real,
    units: Seq<UnitView>,
    places: Option<int>,
    any: bool,
)
    requires
        seconds >= 0real,
        are_positive(units),
    ensures
        ({
            let list = entries(seconds, units, places, any);
            breakdown(seconds, units, places, any).0 == entry_texts(list) && forall|i: int|
                0 <= i < list.len() && (#[trigger] list[i]).amount == "0"@ ==> !any && list.len()
                    == 1
        }),
    decreases units.len(),
{
    let list = entries(seconds, units, places, any);
    assert(entry_texts(Seq::<Entry>::empty()) =~= Seq::<Seq<char>>::empty());
    if units.len() == 1 {
        let text = last_amount(seconds / units[0].factor, places);
        let e = Entry { amount: text, unit: units[0] };
        assert(entry_texts(seq![e]) =~= seq![part(text, units[0])]);
    } else if units.len() > 1 {
        let unit = units[0];
        lemma_left_over(seconds, unit.factor);
        let n = truncated(seconds / unit.factor);
        let left = seconds - n as real * unit.factor;
        let rest = units.skip(1);
        assert forall|i: int| 0 <= i < rest.len() implies (#[trigger] rest[i]).factor > 0real by {
            assert(rest[i] == units[i + 1]);
        }
        law_zero_amounts_are_left_out(left, rest, places, any || n != 0);
        let more = entries(left, rest, places, any || n != 0);
        if n != 0 {
            let e = Entry { amount: integer_text(n), unit };
            lemma_not_zero_text(n);
            assert(list =~= seq![e] + more);
            assert(entry_texts(list) =~= seq![part(e.amount, unit)] + entry_texts(more));
            assert forall|i: int|
                0 <= i < list.len() && (#[trigger] list[i]).amount == "0"@ implies !any
                && list.len() == 1 by {
                if i > 0 {
                    assert(list[i] == more[i - 1]);
                }
            }
        }
    }
}

/// Tokens of which the first is `t`.
proof fn lemma_lexed_first(s: Seq<char>, rest: Seq<char>, t: TokenView)
    requires
        s.len() > 0,
        first_token(s + rest) == Ok::<(TokenView, int), Seq<char>>((t, s.len() as int)),
    ensures
        lexed(s + rest) == (match lexed(rest) {
            Ok(tokens) => Ok::<Seq<TokenView>, Seq<char>>(seq![t] + tokens),
            Err(e) => Err(e),
        }),
{
    assert((s + rest).skip(s.len() as int) =~= rest);
}

/// A numeral up to something else is a number.
proof fn lemma_lex_number(s: Seq<char>, rest: Seq<char>)
    requires
        is_numeral(s),
        decimal_value(s) is Ok,
        rest.len() > 0 ==> !is_digit(rest[0]) && rest[0] != '.',
    ensures
        lexed(s + rest) == (match lexed(rest) {
            Ok(tokens) => Ok::<Seq<TokenView>, Seq<char>>(
                seq![TokenView::Num(decimal_value(s)->Ok_0)] + tokens,
            ),
            Err(e) => Err(e),
        }),
{
    let all = s + rest;
    let n = s.len() as int;
    assert(all[0] == s[0]);
    assert forall|i: int| 0 <= i < n implies in_class(Class::Number, #[trigger] all[i]) by {
        assert(all[i] == s[i]);
    }
    if rest.len() > 0 {
        assert(all[n] == rest[0]);
    }
    lemma_run_is(all, |c: char| in_class(Class::Number, c), n);
    assert(all.take(n) =~= s);
    lemma_lexed_first(s, rest, TokenView::Num(decimal_value(s)->Ok_0));
}

/// A word up to something else is a word.
proof fn lemma_lex_word(s: Seq<char>, rest: Seq<char>)
    requires
        is_plain_word(s),
        rest.len() > 0 ==> !is_letter(rest[0]),
    ensures
        lexed(s + rest) == (match lexed(rest) {
            Ok(tokens) => Ok::<Seq<TokenView>, Seq<char>>(seq![TokenView::Ident(s)] + tokens),
            Err(e) => Err(e),
        }),
{
    let all = s + rest;
    let n = s.len() as int;
    assert(all[0] == s[0]);
    assert(is_letter(s[0]));
    assert forall|i: int| 0 <= i < n implies in_class(Class::Word, #[trigger] all[i]) by {
        assert(all[i] == s[i]);
    }
    if rest.len() > 0 {
        assert(all[n] == rest[0]);
    }
    lemma_run_is(all, |c: char| in_class(Class::Word, c), n);
    assert(all.take(n) =~= s);
    lemma_lexed_first(s, rest, TokenView::Ident(s));
}

/// One space up to something else is a space.
proof fn lemma_lex_space(rest: Seq<char>)
    requires
        rest.len() > 0,
        !is_space(rest[0]),
    ensures
        lexed(seq![' '] + rest) == (match lexed(rest) {
            Ok(tokens) => Ok::<Seq<TokenView>, Seq<char>>(seq![TokenView::Space] + tokens),
            Err(e) => Err(e),
        }),
{
    let s = seq![' '];
    let all = s + rest;
    assert(all[1] == rest[0]);
    lemma_run_is(all, |c: char| in_class(Class::Space, c), 1);
    lemma_lexed_first(s, rest, TokenView::Space);
}

/// The tokens of an entry, and of those behind it.
pub open spec fn entry_tokens(list: Seq<Entry>) -> Seq<TokenView>
    decreases list.len(),
{
    if list.len() == 0 {
        Seq::empty()
    } else {
        let first = seq![
            TokenView::Num(decimal_value(list[0].amount)->Ok_0),
            TokenView::Space,
            TokenView::Ident(list[0].unit.name),
        ];
        if list.len() == 1 {
            first
        } else {
            first + seq![TokenView::Space] + entry_tokens(list.skip(1))
        }
    }
}

/// Parts with spaces between them start with the first part.
proof fn lemma_spaced_first(parts: Seq<Seq<char>>)
    requires
        parts.len() >= 2,
    ensures
        spaced(parts) == parts[0] + (seq![' '] + spaced(parts.skip(1))),
    decreases parts.len(),
{
    reveal_strlit(" ");
    let rest = parts.skip(1);
    if parts.len() == 2 {
        let before = parts.drop_last();
        assert(spaced(before) == parts[0]);
        assert(spaced(rest) == parts[1]);
        assert(spaced(parts) =~= parts[0] + (seq![' '] + spaced(rest)));
    } else {
        let before = parts.drop_last();
        lemma_spaced_first(before);
        assert(before.skip(1) =~= rest.drop_last());
        assert(spaced(rest) =~= spaced(rest.drop_last()) + " "@ + rest.last());
        assert(spaced(parts) =~= parts[0] + (seq![' '] + spaced(rest)));
    }
}

/// The text of entries lexes as their tokens.
proof fn lemma_lex_entries(list: Seq<Entry>, registry: Seq<UnitDefView>)
    requires
        are_entries(list, registry),
        list.len() > 0,
    ensures
        lexed(spaced(entry_texts(list))) == Ok::<Seq<TokenView>, Seq<char>>(entry_tokens(list)),
        spaced(entry_texts(list)).len() > 0,
        is_digit(spaced(entry_texts(list))[0]),
    decreases list.len(),
{
    reveal_strlit(" ");
    let parts = entry_texts(list);
    let text = spaced(parts);
    let e = list[0];
    assert(is_entry(list[0], registry));
    assert(parts[0] == part(e.amount, e.unit));
    let name = e.unit.name;
    let none = Seq::<char>::empty();
    let tail = if list.len() == 1 {
        none
    } else {
        seq![' '] + spaced(parts.skip(1))
    };
    if list.len() == 1 {
        assert(text =~= e.amount + (seq![' '] + (name + tail)));
        assert(lexed(tail) == Ok::<Seq<TokenView>, Seq<char>>(Seq::empty()));
    } else {
        let rest = list.skip(1);
        assert forall|i: int| 0 <= i < rest.len() implies is_entry(
            #[trigger] rest[i],
            registry,
        ) by {
            assert(rest[i] == list[i + 1]);
        }
        assert(parts.skip(1) =~= entry_texts(rest));
        lemma_spaced_first(parts);
        lemma_lex_entries(rest, registry);
        lemma_lex_space(spaced(parts.skip(1)));
        assert(text =~= e.amount + (seq![' '] + (name + tail)));
    }
    lemma_lex_word(name, tail);
    let behind = name + tail;
    assert(behind[0] == name[0]);
    lemma_lex_space(behind);
    lemma_lex_number(e.amount, seq![' '] + behind);
    assert(text[0] == e.amount[0]);
    assert(lexed(text)->Ok_0 =~= entry_tokens(list));
}

/// The spaces among the tokens of entries part operands, and no sign of a definition is
/// among them.
proof fn lemma_entry_tokens(list: Seq<Entry>)
    ensures
        spaces_part_operands(None, entry_tokens(list)),
        forall|i: int| 0 <= i < entry_tokens(list).len() ==> !((#[trigger] entry_tokens(
            list,
        )[i]) is Assign),
        list.len() > 0 ==> entry_tokens(list).len() > 0 && entry_tokens(list)[0] is Num,
    decreases list.len(),
{
    let all = entry_tokens(list);
    if list.len() > 1 {
        let rest = entry_tokens(list.skip(1));
        lemma_entry_tokens(list.skip(1));
        assert forall|i: int| 4 <= i < all.len() implies #[trigger] all[i] == rest[i - 4] by {}
        assert forall|i: int| 0 <= i < all.len() && (#[trigger] all[i]) is Space implies {
            &&& i + 1 < all.len()
            &&& starts_operand(all[i + 1])
            &&& i > 0 && ends_operand(all[i - 1])
        } by {
            if i >= 4 {
                assert(all[i] == rest[i - 4]);
                assert(rest[i - 4] is Space);
                assert(all[i + 1] == rest[i - 3]);
                if i > 4 {
                    assert(all[i - 1] == rest[i - 5]);
                }
            } else if i == 3 {
                assert(all[4] == rest[0]);
            }
        }
    }
}

/// Without a sign of a definition there is none to be found.
proof fn lemma_no_assign(tokens: Seq<TokenView>)
    requires
        forall|i: int| 0 <= i < tokens.len() ==> !((#[trigger] tokens[i]) is Assign),
    ensures
        assign_at(tokens) == tokens.len(),
    decreases tokens.len(),
{
    if tokens.len() > 0 {
        let rest = tokens.skip(1);
        assert forall|i: int| 0 <= i < rest.len() implies !((#[trigger] rest[i]) is Assign) by {
            assert(rest[i] == tokens[i + 1]);
        }
        lemma_no_assign(rest);
    }
}

/// The durations of the entries, with spaces between them.
pub open spec fn duration_tokens(list: Seq<Entry>) -> Seq<TokenView>
    decreases list.len(),
{
    if list.len() == 0 {
        Seq::empty()
    } else {
        let first = seq![TokenView::Duration(entry_seconds(list[0]))];
        if list.len() == 1 {
            first
        } else {
            first + seq![TokenView::Space] + duration_tokens(list.skip(1))
        }
    }
}

/// The tokens of entries form their durations.
proof fn lemma_form_entries(list: Seq<Entry>, registry: Seq<UnitDefView>, seen: Seq<UnitView>)
    requires
        are_entries(list, registry),
    ensures
        formed(entry_tokens(list), registry, seen).0 == duration_tokens(list),
    decreases list.len(),
{
    let tokens = entry_tokens(list);
    if list.len() > 0 {
        assert(is_entry(list[0], registry));
        let u = list[0].unit;
        let behind = tokens.skip(1);
        lemma_space_run_is(behind, 1);
        assert(unit_behind(tokens, registry) == Some(u));
        let after = tokens.skip(3);
        let units = with_unit(seen, u);
        if list.len() == 1 {
            assert(after =~= Seq::<TokenView>::empty());
            assert(formed(after, registry, units).0 =~= Seq::<TokenView>::empty());
            assert(formed(tokens, registry, seen).0 =~= duration_tokens(list));
        } else {
            let rest = list.skip(1);
            assert forall|i: int| 0 <= i < rest.len() implies is_entry(
                #[trigger] rest[i],
                registry,
            ) by {
                assert(rest[i] == list[i + 1]);
            }
            assert(after =~= seq![TokenView::Space] + entry_tokens(rest));
            assert(after.skip(1) =~= entry_tokens(rest));
            lemma_form_entries(rest, registry, units);
            assert(formed(after, registry, units).0 =~= seq![TokenView::Space] + duration_tokens(
                rest,
            ));
            assert(formed(tokens, registry, seen).0 =~= duration_tokens(list));
        }
    }
}

/// Tokens of which no two durations stand side by side stay as they are.
proof fn lemma_combined_is_same(tokens: Seq<TokenView>)
    requires
        forall|i: int|
            0 <= i < tokens.len() - 1 ==> !((#[trigger] tokens[i]) is Duration && tokens[i
                + 1] is Duration),
    ensures
        combined(tokens) == tokens,
    decreases tokens.len(),
{
    if tokens.len() > 0 {
        let before = tokens.drop_last();
        assert forall|i: int| 0 <= i < before.len() - 1 implies !((
        #[trigger] before[i]) is Duration && before[i + 1] is Duration) by {
            assert(before[i] == tokens[i]);
            assert(before[i + 1] == tokens[i + 1]);
        }
        lemma_combined_is_same(before);
        if before.len() > 0 {
            assert(tokens[before.len() - 1] == before.last());
        }
        assert(before.push(tokens.last()) =~= tokens);
    } else {
        assert(combined(tokens) =~= tokens);
    }
}

/// The durations of entries do not stand side by side.
proof fn lemma_duration_tokens(list: Seq<Entry>)
    ensures
        forall|i: int|
            0 <= i < duration_tokens(list).len() - 1 ==> !((#[trigger] duration_tokens(
                list,
            )[i]) is Duration && duration_tokens(list)[i + 1] is Duration),
    decreases list.len(),
{
    if list.len() > 1 {
        let all = duration_tokens(list);
        let rest = duration_tokens(list.skip(1));
        lemma_duration_tokens(list.skip(1));
        assert forall|i: int| 0 <= i < all.len() - 1 implies !((#[trigger] all[i]) is Duration
            && all[i + 1] is Duration) by {
            if i >= 2 {
                assert(all[i] == rest[i - 2]);
                assert(all[i + 1] == rest[i - 1]);
            }
        }
    }
}

/// `lhs` applied to the durations of the entries, one after the other.
pub open spec fn chain(lhs: ExprView, list: Seq<Entry>) -> ExprView
    decreases list.len(),
{
    if list.len() == 0 {
        lhs
    } else {
        chain(
            ExprView::Apply(
                Box::new(lhs),
                Box::new(ExprView::Duration(entry_seconds(list[0]))),
            ),
            list.skip(1),
        )
    }
}

/// A duration is an operand of its own where a space or nothing follows it.
proof fn lemma_parse_duration(x: real, rest: Seq<TokenView>, registry: Seq<UnitDefView>)
    requires
        rest.len() > 0 ==> rest[0] is Space,
    ensures
        parsed(
            TIGHT_APPLICATION as int,
            seq![TokenView::Duration(x)] + rest,
            registry,
        ) == Ok::<(ExprView, Seq<TokenView>), Seq<char>>((ExprView::Duration(x), rest)),
{
    let tokens = seq![TokenView::Duration(x)] + rest;
    assert(tokens.skip(1) =~= rest);
    assert(parsed(PRIMARY as int, tokens, registry) == Ok::<
        (ExprView, Seq<TokenView>),
        Seq<char>,
    >((ExprView::Duration(x), rest)));
    assert(joint_at(TIGHT_APPLICATION as int, rest) is None);
    assert(extended(TIGHT_APPLICATION as int, ExprView::Duration(x), rest, registry) == Ok::<
        (ExprView, Seq<TokenView>),
        Seq<char>,
    >((ExprView::Duration(x), rest)));
}

/// Durations behind an expression are what it is applied to.
proof fn lemma_extend_chain(lhs: ExprView, list: Seq<Entry>, registry: Seq<UnitDefView>)
    requires
        list.len() > 0,
    ensures
        extended(
            SPACED_APPLICATION as int,
            lhs,
            seq![TokenView::Space] + duration_tokens(list),
            registry,
        ) == Ok::<(ExprView, Seq<TokenView>), Seq<char>>((chain(lhs, list), Seq::empty())),
    decreases list.len(),
{
    let level = SPACED_APPLICATION as int;
    let tokens = seq![TokenView::Space] + duration_tokens(list);
    let none = Seq::<TokenView>::empty();
    let rest = if list.len() == 1 {
        none
    } else {
        seq![TokenView::Space] + duration_tokens(list.skip(1))
    };
    let x = entry_seconds(list[0]);
    let behind = tokens.skip(1);
    assert(behind =~= seq![TokenView::Duration(x)] + rest);
    assert(tokens[1] == behind[0]);
    lemma_parse_duration(x, rest, registry);
    let e = ExprView::Apply(Box::new(lhs), Box::new(ExprView::Duration(x)));
    if list.len() == 1 {
        assert(joint_at(level, none) is None);
        assert(extended(level, e, none, registry) == Ok::<
            (ExprView, Seq<TokenView>),
            Seq<char>,
        >((e, none)));
        assert(chain(e, list.skip(1)) == e);
    } else {
        lemma_extend_chain(e, list.skip(1), registry);
    }
}

/// The durations of entries are parsed as the first applied to the others.
proof fn lemma_parse_entries(level: int, list: Seq<Entry>, registry: Seq<UnitDefView>)
    requires
        list.len() > 0,
        CONCATENATION <= level <= SPACED_APPLICATION,
    ensures
        parsed(level, duration_tokens(list), registry) == Ok::<
            (ExprView, Seq<TokenView>),
            Seq<char>,
        >((chain(ExprView::Duration(entry_seconds(list[0])), list.skip(1)), Seq::empty())),
    decreases SPACED_APPLICATION - level,
{
    let tokens = duration_tokens(list);
    let x = entry_seconds(list[0]);
    let first = ExprView::Duration(x);
    let none = Seq::<TokenView>::empty();
    let e = chain(first, list.skip(1));
    if level == SPACED_APPLICATION {
        let rest = if list.len() == 1 {
            none
        } else {
            seq![TokenView::Space] + duration_tokens(list.skip(1))
        };
        assert(tokens =~= seq![TokenView::Duration(x)] + rest);
        lemma_parse_duration(x, rest, registry);
        if list.len() == 1 {
            assert(joint_at(level, none) is None);
            assert(extended(level, first, none, registry) == Ok::<
                (ExprView, Seq<TokenView>),
                Seq<char>,
            >((first, none)));
        } else {
            lemma_extend_chain(first, list.skip(1), registry);
        }
    } else {
        lemma_parse_entries(level + 1, list, registry);
        assert(joint_at(level, none) is None);
        assert(extended(level, e, none, registry) == Ok::<
            (ExprView, Seq<TokenView>),
            Seq<char>,
        >((e, none)));
    }
}

/// Durations applied to each other are added up, and name no unit by a word.
proof fn lemma_eval_chain(
    limit: nat,
    lhs: ExprView,
    seconds: real,
    list: Seq<Entry>,
    env: Env,
    scope: ScopeView,
)
    requires
        eval_at(limit, lhs, env, scope) == Some::<Result<ValueView, Seq<char>>>(
            Ok(ValueView::Duration(seconds)),
        ),
    ensures
        eval_at(limit, chain(lhs, list), env, scope) == Some::<Result<ValueView, Seq<char>>>(
            Ok(ValueView::Duration(seconds + all_seconds(list))),
        ),
    decreases list.len(),
{
    if list.len() > 0 {
        let x = entry_seconds(list[0]);
        let e = ExprView::Apply(Box::new(lhs), Box::new(ExprView::Duration(x)));
        assert(eval_at(limit, ExprView::Duration(x), env, scope) == Some::<
            Result<ValueView, Seq<char>>,
        >(Ok(ValueView::Duration(x))));
        assert(pair_at(limit, Operator::Apply, lhs, ExprView::Duration(x), env, scope) == Some::<
            Result<ValueView, Seq<char>>,
        >(Ok(ValueView::Duration(seconds + x))));
        lemma_eval_chain(limit, e, seconds + x, list.skip(1), env, scope);
    }
}

/// Where nothing is asked for, the units of the line do not matter to how a value is
/// written.
proof fn lemma_text_without_target(
    v: ValueView,
    explicit: Seq<UnitView>,
    registry: Seq<UnitDefView>,
)
    requires
        !(v is Formatted),
    ensures
        value_text(v, no_target(), explicit, registry) == value_text(
            v,
            no_target(),
            Seq::empty(),
            registry,
        ),
{
}

/// The text of a duration, entered as a line, is a duration again: of as many seconds as
/// its parts stand for. Where the text is not marked, that is the duration itself.
///
/// The units have to go by their names.
pub proof fn law_duration_text_reenters(
    seconds: real,
    units: Seq<UnitView>,
    places: Option<int>,
    limit: nat,
    now: int,
    last: Option<ValueView>,
    registry: Seq<UnitDefView>,
    funcs: Seq<FuncView>,
)
    requires
        seconds >= 0real,
        units.len() > 0,
        are_positive(units),
        are_enterable(units, registry),
        is_sound_registry(registry),
        places matches Some(n) ==> n <= i32::MAX,
    ensures
        ({
            let (parts, shown) = breakdown(seconds, units, places, false);
            let v = ValueView::Duration(shown);
            duration_in(seconds, units, places, true) == mark(shown == seconds) + spaced(parts)
                && line_at(limit, now, spaced(parts), last, registry, funcs) == Some::<
                (Answer, Seq<FuncView>),
            >((Ok((value_text(v, no_target(), Seq::empty(), registry), Some(v))), funcs))
        }),
{
    let list = entries(seconds, units, places, false);
    lemma_entries(seconds, units, places, false, registry);
    lemma_lex_entries(list, registry);
    lemma_entry_tokens(list);
    let tokens = entry_tokens(list);
    lemma_cleaned_is_same(None, tokens);
    lemma_no_assign(tokens);
    let (durations, explicit) = formed(tokens, registry, Seq::empty());
    lemma_form_entries(list, registry, Seq::empty());
    lemma_duration_tokens(list);
    lemma_combined_is_same(durations);
    lemma_parse_entries(CONCATENATION as int, list, registry);
    let first = entry_seconds(list[0]);
    let lhs = ExprView::Duration(first);
    let e = chain(lhs, list.skip(1));
    let named = collected(e, explicit, registry, funcs);
    let scope = scope_of(named, now, last, registry, funcs);
    lemma_eval_chain(limit, lhs, first, list.skip(1), Map::empty(), scope);
    let v = ValueView::Duration(breakdown(seconds, units, places, false).1);
    lemma_sound_is_writable(v, named, registry);
    lemma_text_without_target(v, named, registry);
    let (parts, shown) = breakdown(seconds, units, places, false);
    reveal_strlit("");
    assert(duration_in(seconds, units, places, true) =~= mark(shown == seconds) + spaced(parts));
}

/// The text of a number, entered as a line, is the number that it shows.
pub proof fn law_number_text_reenters(
    x: real,
    places: int,
    limit: nat,
    now: int,
    last: Option<ValueView>,
    registry: Seq<UnitDefView>,
    funcs: Seq<FuncView>,
)
    requires
        places <= i32::MAX,
    ensures
        ({
            let text = minus_sign(x) + decimal_text(magnitude(x), places);
            let y = number_shown(x, places);
            line_at(limit, now, text, last, registry, funcs) == Some::<(Answer, Seq<FuncView>)>(
                (Ok((number_text(y, None), Some(ValueView::Number(y)))), funcs),
            )
        }),
{
    let size = magnitude(x);
    let numeral = decimal_text(size, places);
    let shown = shown_value(size, places);
    lemma_decimal_text_is_numeral(size, places);
    law_decimal_reads_back(size, places);
    let end = Seq::<char>::empty();
    let none = Seq::<TokenView>::empty();
    let num = TokenView::Num(shown);
    let one = seq![num];
    assert(lexed(end) == Ok::<Seq<TokenView>, Seq<char>>(none));
    lemma_lex_number(numeral, end);
    assert(numeral + end =~= numeral);
    assert(one + none =~= one);
    assert(lexed(numeral) == Ok::<Seq<TokenView>, Seq<char>>(one));
    assert(one.skip(1) =~= none);
    assert(parsed(PRIMARY as int, one, registry) == Ok::<(ExprView, Seq<TokenView>), Seq<char>>(
        (ExprView::Number(shown), none),
    ));
    reveal_strlit("");
    reveal_strlit("-");
    let text = minus_sign(x) + numeral;
    let leftover = "Incomplete expression"@;
    reveal_with_fuel(eval_at, 2);
    if x < 0real {
        let sign = seq!['-'];
        assert(text =~= sign + numeral);
        lemma_lexed_first(sign, numeral, TokenView::Minus);
        let tokens = seq![TokenView::Minus] + one;
        lemma_cleaned_is_same(None, tokens);
        lemma_no_assign(tokens);
        assert(tokens.skip(1) =~= one);
        assert(unit_behind(one, registry) is None);
        assert(formed(none, registry, Seq::empty()) == (none, Seq::<UnitView>::empty()));
        assert(formed(one, registry, Seq::empty()) == (one, Seq::<UnitView>::empty()));
        assert(formed(tokens, registry, Seq::empty()) == (tokens, Seq::<UnitView>::empty()));
        lemma_combined_is_same(tokens);
        let e = ExprView::UnaryMinus(Box::new(ExprView::Number(shown)));
        assert(parsed(PRIMARY as int, tokens, registry) == Ok::<
            (ExprView, Seq<TokenView>),
            Seq<char>,
        >((e, none)));
        lemma_parse_operand(CONCATENATION as int, tokens, e, registry);
        reveal_with_fuel(collected, 2);
        assert(request_of(text, registry, funcs) == Ok::<RequestView, Seq<char>>(
            RequestView::Compute(e, Seq::empty()),
        ));
    } else {
        assert(text =~= numeral);
        lemma_cleaned_is_same(None, one);
        lemma_no_assign(one);
        lemma_one_token(num, ExprView::Number(shown), registry, leftover);
    }
}

/// The text of a negative duration of one part, entered as a line, is the negative of what
/// its part stands for.
pub proof fn law_negative_part_reenters(
    seconds: real,
    units: Seq<UnitView>,
    places: Option<int>,
    limit: nat,
    now: int,
    last: Option<ValueView>,
    registry: Seq<UnitDefView>,
    funcs: Seq<FuncView>,
)
    requires
        seconds >= 0real,
        units.len() > 0,
        are_positive(units),
        are_enterable(units, registry),
        is_sound_registry(registry),
        places matches Some(n) ==> n <= i32::MAX,
        breakdown(seconds, units, places, false).0.len() == 1,
    ensures
        ({
            let (parts, shown) = breakdown(seconds, units, places, false);
            let v = ValueView::Duration(-shown);
            line_at(limit, now, "-"@ + spaced(parts), last, registry, funcs) == Some::<
                (Answer, Seq<FuncView>),
            >((Ok((value_text(v, no_target(), Seq::empty(), registry), Some(v))), funcs))
        }),
{
    reveal_strlit("-");
    let list = entries(seconds, units, places, false);
    lemma_entries(seconds, units, places, false, registry);
    lemma_lex_entries(list, registry);
    lemma_entry_tokens(list);
    let text = spaced(entry_texts(list));
    let behind = entry_tokens(list);
    let sign = seq!['-'];
    let line = sign + text;
    assert("-"@ + text =~= line);
    lemma_lexed_first(sign, text, TokenView::Minus);
    let tokens = seq![TokenView::Minus] + behind;
    assert(lexed(line) == Ok::<Seq<TokenView>, Seq<char>>(tokens));
    lemma_cleaned_is_same(None, tokens);
    lemma_no_assign(tokens);
    lemma_form_entries(list, registry, Seq::empty());
    let (durations, explicit) = formed(behind, registry, Seq::empty());
    assert(tokens.skip(1) =~= behind);
    let all = seq![TokenView::Minus] + durations;
    assert(formed(tokens, registry, Seq::empty()) == (all, explicit));
    lemma_combined_is_same(all);
    let x = entry_seconds(list[0]);
    let none = Seq::<TokenView>::empty();
    let one = seq![TokenView::Duration(x)];
    assert(durations == one);
    assert(all.skip(1) =~= one);
    assert(one.skip(1) =~= none);
    let inner = ExprView::Duration(x);
    let e = ExprView::UnaryMinus(Box::new(inner));
    assert(parsed(PRIMARY as int, one, registry) == Ok::<(ExprView, Seq<TokenView>), Seq<char>>(
        (inner, none),
    ));
    assert(parsed(PRIMARY as int, all, registry) == Ok::<(ExprView, Seq<TokenView>), Seq<char>>(
        (e, none),
    ));
    lemma_parse_operand(CONCATENATION as int, all, e, registry);
    let named = collected(e, explicit, registry, funcs);
    assert(request_of(line, registry, funcs) == Ok::<RequestView, Seq<char>>(
        RequestView::Compute(e, named),
    ));
    assert(list.skip(1) =~= Seq::<Entry>::empty());
    assert(all_seconds(list.skip(1)) == 0real);
    let scope = scope_of(named, now, last, registry, funcs);
    let env = Map::<Seq<char>, ValueView>::empty();
    let v = ValueView::Duration(-x);
    assert(eval_at(limit, inner, env, scope) == Some::<Result<ValueView, Seq<char>>>(
        Ok(ValueView::Duration(x)),
    ));
    assert(eval_at(limit, e, env, scope) == Some::<Result<ValueView, Seq<char>>>(Ok(v)));
    lemma_sound_is_writable(v, named, registry);
    lemma_text_without_target(v, named, registry);
}

/// Whether the text that a number or duration is usually written as shows all of it.
pub open spec fn is_shown_in_full(v: ValueView, registry: Seq<UnitDefView>) -> bool {
    match v {
        ValueView::Number(x) => number_shown(x, default_places()) == x,
        ValueView::Duration(x) => breakdown(
            magnitude(x),
            default_units(registry)->0,
            None,
            false,
        ).1 == magnitude(x),
        _ => false,
    }
}

/// Whether a duration is not negative, or is written in one part.
pub open spec fn has_one_sign(v: ValueView, registry: Seq<UnitDefView>) -> bool {
    v matches ValueView::Duration(x) ==> x >= 0real || breakdown(
        -x,
        default_units(registry)->0,
        None,
        false,
    ).0.len() == 1
}

/// Entering an answer that shows all of its value gives the same answer, and the same
/// value, again. A negative duration of several parts is left out: behind its minus sign
/// only the first part would be taken away.
pub proof fn law_full_answer_reenters(
    v: ValueView,
    explicit: Seq<UnitView>,
    limit: nat,
    now: int,
    last: Option<ValueView>,
    registry: Seq<UnitDefView>,
    funcs: Seq<FuncView>,
)
    requires
        is_sound_registry(registry),
        are_positive(default_units(registry)->0),
        are_enterable(default_units(registry)->0, registry),
        is_shown_in_full(v, registry),
        has_one_sign(v, registry),
    ensures
        ({
            let text = value_text(v, no_target(), explicit, registry);
            line_at(limit, now, text, last, registry, funcs) == Some::<(Answer, Seq<FuncView>)>(
                (Ok((text, Some(v))), funcs),
            )
        }),
{
    reveal_strlit("");
    lemma_text_without_target(v, explicit, registry);
    let text = value_text(v, no_target(), explicit, registry);
    match v {
        ValueView::Number(x) => {
            let places = default_places();
            law_number_text_reads_back(x, None);
            law_number_text_reenters(x, places, limit, now, last, registry, funcs);
            assert(text =~= minus_sign(x) + decimal_text(magnitude(x), places));
        },
        ValueView::Duration(x) => {
            let units = default_units(registry)->0;
            let (parts, shown) = breakdown(magnitude(x), units, None, false);
            if x < 0real {
                law_negative_part_reenters(-x, units, None, limit, now, last, registry, funcs);
                assert(text =~= "-"@ + spaced(parts));
            } else {
                law_duration_text_reenters(x, units, None, limit, now, last, registry, funcs);
                assert(text =~= spaced(parts));
            }
        },
        _ => {},
    }
}

} // verus!
