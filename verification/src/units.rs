//! Units of time: looking them up by name, and forming durations of numbers and units.

use crate::lexer::{lemma_space_run, space_end, space_run};
use crate::number::Rational;
use crate::syntax::{
    defs_view, texts, tokens_view, units_view, FormatUnit, Token, TokenView, UnitDef,
    UnitDefView, UnitView,
};
use crate::text::lower_case;
use vstd::prelude::*;

verus! {

/// Whether `word` is one of the names, in upper or lower case.
pub open spec fn is_named(word: Seq<char>, name: Seq<char>, aliases: Seq<Seq<char>>) -> bool {
    lower_case(word) == lower_case(name) || exists|i: int|
        0 <= i < aliases.len() && lower_case(#[trigger] aliases[i]) == lower_case(word)
}

/// The first unit of the registry that `word` names.
pub open spec fn find_unit(word: Seq<char>, registry: Seq<UnitDefView>) -> Option<UnitView>
    decreases registry.len(),
{
    if registry.len() == 0 {
        None
    } else if is_named(word, registry[0].primary_name, registry[0].aliases) {
        Some(UnitView { name: registry[0].primary_name, factor: registry[0].factor })
    } else {
        find_unit(word, registry.skip(1))
    }
}

/// What is said of a word that names no unit.
pub open spec fn unknown_unit(word: Seq<char>) -> Seq<char> {
    "Unknown unit: '"@ + word + "'"@
}

/// The unit that stands behind a number at the start of `tokens`, spaces between them
/// allowed.
pub open spec fn unit_behind(tokens: Seq<TokenView>, registry: Seq<UnitDefView>) -> Option<UnitView> {
    let j = 1 + space_run(tokens.skip(1));
    if j < tokens.len() {
        match tokens[j] {
            TokenView::Ident(word) => find_unit(word, registry),
            _ => None,
        }
    } else {
        None
    }
}

/// `units` with `u` at the end, unless it is there already.
pub open spec fn with_unit(units: Seq<UnitView>, u: UnitView) -> Seq<UnitView> {
    if units.contains(u) {
        units
    } else {
        units.push(u)
    }
}

/// `tokens` with each number that a unit stands behind made a duration, and the units
/// that were met so, each once and in the order of their first appearance, behind those
/// of `seen`.
pub open spec fn formed(
    tokens: Seq<TokenView>,
    registry: Seq<UnitDefView>,
    seen: Seq<UnitView>,
) -> (Seq<TokenView>, Seq<UnitView>)
    decreases tokens.len(),
{
    if tokens.len() == 0 {
        (Seq::empty(), seen)
    } else if tokens[0] is Num && unit_behind(tokens, registry) is Some {
        let u = unit_behind(tokens, registry)->0;
        let n = 2 + space_run(tokens.skip(1));
        proof {
            lemma_space_run(tokens.skip(1));
        }
        let (rest, units) = formed(tokens.skip(n), registry, with_unit(seen, u));
        (seq![TokenView::Duration(tokens[0]->Num_0 * u.factor)] + rest, units)
    } else {
        let (rest, units) = formed(tokens.skip(1), registry, seen);
        (seq![tokens[0]] + rest, units)
    }
}

/// `tokens` with each row of durations added up.
pub open spec fn combined(tokens: Seq<TokenView>) -> Seq<TokenView>
    decreases tokens.len(),
{
    if tokens.len() == 0 {
        Seq::empty()
    } else {
        let done = combined(tokens.drop_last());
        let t = tokens.last();
        if t is Duration && done.len() > 0 && done.last() is Duration {
            done.drop_last().push(
                TokenView::Duration(done.last()->Duration_0 + t->Duration_0),
            )
        } else {
            done.push(t)
        }
    }
}

/// Whether the name of a definition, or one of its other names, is `word` in upper or
/// lower case.
pub fn goes_by(word: &str, name: &str, aliases: &Vec<String>) -> (r: bool)
    ensures
        r == is_named(word@, name@, texts(aliases@)),
{
    let lower: String = word.to_lowercase();
    if lower == name.to_lowercase() {
        return true;
    }
    let ghost names = texts(aliases@);
    let mut i: usize = 0;
    while i < aliases.len()
        invariant
            names == texts(aliases@),
            lower@ == lower_case(word@),
            i <= aliases@.len(),
            forall|j: int| 0 <= j < i ==> lower_case(#[trigger] names[j]) != lower_case(word@),
        decreases aliases@.len() - i,
    {
        assert(names[i as int] == aliases@[i as int]@);
        if aliases[i].as_str().to_lowercase() == lower {
            return true;
        }
        i = i + 1;
    }
    false
}

/// Looks up the unit that `u` names.
pub fn parse_single_unit(u: &str, registry: &[UnitDef]) -> (r: Result<FormatUnit, String>)
    ensures
        match r {
            Ok(unit) => find_unit(u@, defs_view(registry@)) == Some(unit@),
            Err(e) => find_unit(u@, defs_view(registry@)) is None && e@ == unknown_unit(u@),
        },
{
    let ghost all = defs_view(registry@);
    let mut i: usize = 0;
    assert(all.skip(0) == all);
    while i < registry.len()
        invariant
            all == defs_view(registry@),
            i <= registry@.len(),
            find_unit(u@, all) == find_unit(u@, all.skip(i as int)),
        decreases registry@.len() - i,
    {
        let def: &UnitDef = &registry[i];
        proof {
            assert(all.skip(i as int)[0] == def@);
            assert(all.skip(i as int).skip(1) == all.skip(i + 1));
        }
        if goes_by(u, def.primary_name.as_str(), &def.aliases) {
            return Ok(FormatUnit { name: def.primary_name.clone(), factor: def.factor.clone() });
        }
        i = i + 1;
    }
    let mut message: String = "Unknown unit: '".to_owned();
    message.append(u);
    message.append("'");
    Err(message)
}

/// Whether two units are the same.
fn is_same_unit(a: &FormatUnit, b: &FormatUnit) -> (r: bool)
    ensures
        r == (a@ == b@),
{
    a.name == b.name && a.factor.is_equal(&b.factor)
}

/// Adds `u` to `units`, unless it is there already.
fn add_unit(units: &mut Vec<FormatUnit>, u: &FormatUnit)
    ensures
        units_view(final(units)@) == with_unit(units_view(old(units)@), u@),
{
    let ghost all = units_view(units@);
    let mut i: usize = 0;
    while i < units.len()
        invariant
            all == units_view(units@),
            units@ == old(units)@,
            i <= units@.len(),
            forall|j: int| 0 <= j < i ==> #[trigger] all[j] != u@,
        decreases units@.len() - i,
    {
        assert(all[i as int] == units@[i as int]@);
        if is_same_unit(&units[i], u) {
            assert(all.contains(u@));
            return;
        }
        i = i + 1;
    }
    units.push(u.clone());
    proof {
        assert(!all.contains(u@));
        assert(units_view(units@) =~= all.push(u@));
    }
}

/// The unit that stands behind the number at `from`, and where the two end.
fn find_unit_behind(tokens: &Vec<Token>, from: usize, registry: &[UnitDef]) -> (r: Option<
    (FormatUnit, usize),
>)
    requires
        from < tokens@.len(),
    ensures
        ({
            let rest = tokens_view(tokens@).skip(from as int);
            match r {
                Some((u, end)) => unit_behind(rest, defs_view(registry@)) == Some(u@) && end == from
                    + 2 + space_run(rest.skip(1)) && end <= tokens@.len(),
                None => unit_behind(rest, defs_view(registry@)) is None,
            }
        }),
{
    let len: usize = tokens.len();
    let ghost all = tokens_view(tokens@);
    let ghost rest = all.skip(from as int);
    proof {
        assert(rest.skip(1) == all.skip(from + 1));
    }
    let j: usize = space_end(tokens, from + 1);
    if j < len {
        proof {
            assert(rest[j - from] == all[j as int]);
        }
        if let Token::Ident(word) = &tokens[j] {
            if let Ok(u) = parse_single_unit(word.as_str(), registry) {
                return Some((u, j + 1));
            }
        }
    }
    None
}

/// Makes a duration of each number that a unit stands behind, and collects those units.
pub fn form_durations(tokens: Vec<Token>, registry: &[UnitDef]) -> (r: (Vec<Token>, Vec<FormatUnit>))
    ensures
        (tokens_view(r.0@), units_view(r.1@)) == formed(
            tokens_view(tokens@),
            defs_view(registry@),
            Seq::empty(),
        ),
{
    let ghost all = tokens_view(tokens@);
    let ghost defs = defs_view(registry@);
    let mut new_tokens: Vec<Token> = Vec::new();
    let mut explicit_units: Vec<FormatUnit> = Vec::new();
    let mut i: usize = 0;
    proof {
        assert(all.skip(0) == all);
        assert(units_view(explicit_units@) =~= Seq::empty());
        assert(tokens_view(new_tokens@) + formed(all, defs, Seq::empty()).0 =~= formed(
            all,
            defs,
            Seq::empty(),
        ).0);
    }
    while i < tokens.len()
        invariant
            all == tokens_view(tokens@),
            defs == defs_view(registry@),
            i <= tokens@.len(),
            ({
                let (rest, units) = formed(
                    all.skip(i as int),
                    defs,
                    units_view(explicit_units@),
                );
                formed(all, defs, Seq::empty()) == (tokens_view(new_tokens@) + rest, units)
            }),
        decreases tokens@.len() - i,
    {
        let ghost rest = all.skip(i as int);
        let ghost done = tokens_view(new_tokens@);
        let ghost seen = units_view(explicit_units@);
        proof {
            assert(rest[0] == all[i as int]);
            assert(rest.skip(1) == all.skip(i + 1));
            lemma_space_run(rest.skip(1));
        }
        let mut next: usize = i + 1;
        let mut duration: Option<Rational> = None;
        if let Token::Num(val) = &tokens[i] {
            if let Some((u, end)) = find_unit_behind(&tokens, i, registry) {
                add_unit(&mut explicit_units, &u);
                let (seconds, _) = u.info();
                duration = Some(val.times(seconds));
                next = end;
            }
        }
        match duration {
            Some(d) => {
                new_tokens.push(Token::Duration(d));
                proof {
                    assert(rest.skip(next - i) == all.skip(next as int));
                    assert(tokens_view(new_tokens@) =~= done.push(TokenView::Duration(d@)));
                    let (more, units) = formed(
                        all.skip(next as int),
                        defs,
                        units_view(explicit_units@),
                    );
                    assert(done + (seq![TokenView::Duration(d@)] + more) =~= tokens_view(
                        new_tokens@,
                    ) + more);
                }
            },
            None => {
                new_tokens.push(tokens[i].clone());
                proof {
                    assert(tokens_view(new_tokens@) =~= done.push(all[i as int]));
                    let (more, units) = formed(all.skip(i + 1), defs, seen);
                    assert(done + (seq![all[i as int]] + more) =~= tokens_view(new_tokens@) + more);
                }
            },
        }
        i = next;
    }
    proof {
        assert(tokens_view(new_tokens@) + Seq::<TokenView>::empty() =~= tokens_view(new_tokens@));
    }
    (new_tokens, explicit_units)
}

/// Adds up each row of durations that stand side by side.
pub fn combine_contiguous_durations(tokens: Vec<Token>) -> (r: Vec<Token>)
    ensures
        tokens_view(r@) == combined(tokens_view(tokens@)),
{
    let ghost all = tokens_view(tokens@);
    let mut new_tokens: Vec<Token> = Vec::new();
    let mut i: usize = 0;
    assert(tokens_view(new_tokens@) =~= Seq::<TokenView>::empty());
    while i < tokens.len()
        invariant
            all == tokens_view(tokens@),
            i <= tokens@.len(),
            tokens_view(new_tokens@) == combined(all.take(i as int)),
        decreases tokens@.len() - i,
    {
        let ghost done = tokens_view(new_tokens@);
        proof {
            assert(all.take(i + 1).drop_last() == all.take(i as int));
            assert(all.take(i + 1).last() == tokens@[i as int]@);
        }
        let mut sum: Option<Rational> = None;
        if let Token::Duration(val) = &tokens[i] {
            if new_tokens.len() > 0 {
                if let Token::Duration(last_val) = &new_tokens[new_tokens.len() - 1] {
                    sum = Some(last_val.plus(val));
                }
            }
        }
        match sum {
            Some(d) => {
                let ghost before = new_tokens@;
                new_tokens.pop();
                new_tokens.push(Token::Duration(d));
                proof {
                    assert(done.last() == before.last()@);
                    assert(tokens_view(new_tokens@) =~= done.drop_last().push(
                        TokenView::Duration(d@),
                    ));
                }
            },
            None => {
                new_tokens.push(tokens[i].clone());
                proof {
                    assert(tokens_view(new_tokens@) =~= done.push(all[i as int]));
                }
            },
        }
        i = i + 1;
    }
    assert(all.take(i as int) == all);
    new_tokens
}

} // verus!
