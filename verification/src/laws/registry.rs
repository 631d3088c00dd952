//! Laws of the registry.

use crate::eval::find_func;
use crate::format::{bare, default_units};
use crate::lexer::{
    class_run, in_class, lemma_lexed_without_names, lexed_with, name_at, name_run, tokens_of,
    Class,
};
use crate::number::is_digit;
use crate::registry::{
    by_length, definition_tokens, inserted, is_joined, joined_names, registry_at,
    standard_units, with_custom_functions, with_custom_unit, with_custom_units, ConfigView,
    FuncConfigView, UnitConfigView,
};
use crate::session::{expression_of, line_at};
use crate::syntax::{FuncView, TokenView, UnitDefView, UnitView, ValueView};
use crate::text::{is_letter, lemma_run, lemma_run_is, lower_case};
use crate::units::{find_unit, is_named};
use vstd::prelude::*;

verus! {

/// Whether no unit stands behind a shorter one.
pub open spec fn is_descending(units: Seq<UnitDefView>) -> bool {
    forall|i: int, j: int|
        0 <= i < j < units.len() ==> (#[trigger] units[i]).factor >= (#[trigger] units[j]).factor
}

/// The units of one length, in their order.
pub open spec fn of_length(units: Seq<UnitDefView>, length: real) -> Seq<UnitDefView>
    decreases units.len(),
{
    if units.len() == 0 {
        Seq::empty()
    } else if units.last().factor == length {
        of_length(units.drop_last(), length).push(units.last())
    } else {
        of_length(units.drop_last(), length)
    }
}

/// Inserting a unit keeps the order, adds that unit and no other, and puts it behind those
/// of its length.
proof fn lemma_inserted(units: Seq<UnitDefView>, u: UnitDefView, length: real)
    requires
        is_descending(units),
    ensures
        is_descending(inserted(units, u)),
        inserted(units, u).len() == units.len() + 1,
        inserted(units, u).to_multiset() == units.to_multiset().insert(u),
        of_length(inserted(units, u), length) == if u.factor == length {
            of_length(units, length).push(u)
        } else {
            of_length(units, length)
        },
        forall|i: int|
            0 <= i < inserted(units, u).len() ==> (#[trigger] inserted(units, u)[i]) == u
                || units.contains(inserted(units, u)[i]),
    decreases units.len(),
{
    broadcast use vstd::seq_lib::group_to_multiset_ensures;

    let all = inserted(units, u);
    if units.len() == 0 || units.last().factor >= u.factor {
        assert(all.drop_last() =~= units);
        assert forall|i: int| 0 <= i < all.len() implies (#[trigger] all[i]) == u
            || units.contains(all[i]) by {
            if i < units.len() {
                assert(units[i] == all[i]);
            }
        }
    } else {
        let before = units.drop_last();
        lemma_inserted(before, u, length);
        let rest = inserted(before, u);
        assert(all.drop_last() =~= rest);
        assert(units =~= before.push(units.last()));
        assert(all.to_multiset() =~= units.to_multiset().insert(u));
        assert forall|i: int| 0 <= i < all.len() implies (#[trigger] all[i]) == u
            || units.contains(all[i]) by {
            if i < rest.len() {
                assert(rest[i] == all[i]);
                if rest[i] != u {
                    let k = choose|k: int| 0 <= k < before.len() && before[k] == rest[i];
                    assert(units[k] == all[i]);
                }
            } else {
                assert(units[units.len() - 1] == all[i]);
            }
        }
        assert forall|i: int, j: int| 0 <= i < j < all.len() implies (#[trigger] all[i]).factor >= (
        #[trigger] all[j]).factor by {
            assert(rest[i] == all[i]);
            if j < rest.len() {
                assert(rest[j] == all[j]);
            } else if rest[i] != u {
                let k = choose|k: int| 0 <= k < before.len() && before[k] == rest[i];
                assert(units[k] == rest[i]);
                assert(units[units.len() - 1] == all[j]);
            }
        }
    }
}

/// Sorting orders the units from the longest to the shortest, neither adds nor drops one,
/// and keeps the order of units of one length.
pub proof fn law_sorting_is_stable(units: Seq<UnitDefView>, length: real)
    ensures
        is_descending(by_length(units)),
        by_length(units).to_multiset() == units.to_multiset(),
        of_length(by_length(units), length) == of_length(units, length),
    decreases units.len(),
{
    broadcast use vstd::seq_lib::group_to_multiset_ensures;

    if units.len() > 0 {
        law_sorting_is_stable(units.drop_last(), length);
        lemma_inserted(by_length(units.drop_last()), units.last(), length);
        assert(units =~= units.drop_last().push(units.last()));
    }
}

/// Sorting a sorted registry changes nothing.
pub proof fn law_sorting_twice(units: Seq<UnitDefView>)
    requires
        is_descending(units),
    ensures
        by_length(units) == units,
    decreases units.len(),
{
    if units.len() > 0 {
        let before = units.drop_last();
        law_sorting_twice(before);
        if before.len() > 0 {
            assert(units[before.len() - 1] == before.last());
            assert(units[units.len() - 1].factor <= units[before.len() - 1].factor);
        }
        assert(before.push(units.last()) =~= units);
    } else {
        assert(by_length(units) =~= units);
    }
}

/// A word that some unit of the registry is named by is found, and what is found is named
/// by it.
pub proof fn law_unit_is_found(word: Seq<char>, registry: Seq<UnitDefView>)
    ensures
        find_unit(word, registry) is Some <==> exists|i: int|
            0 <= i < registry.len() && is_named(
                word,
                (#[trigger] registry[i]).primary_name,
                registry[i].aliases,
            ),
        match find_unit(word, registry) {
            Some(u) => exists|i: int|
                0 <= i < registry.len() && is_named(
                    word,
                    (#[trigger] registry[i]).primary_name,
                    registry[i].aliases,
                ) && u == (UnitView {
                    name: registry[i].primary_name,
                    factor: registry[i].factor,
                }),
            None => true,
        },
    decreases registry.len(),
{
    if registry.len() > 0 {
        if is_named(word, registry[0].primary_name, registry[0].aliases) {
            assert(find_unit(word, registry) is Some);
        } else {
            let rest = registry.skip(1);
            law_unit_is_found(word, rest);
            if find_unit(word, rest) is Some {
                let i = choose|i: int|
                    0 <= i < rest.len() && is_named(
                        word,
                        (#[trigger] rest[i]).primary_name,
                        rest[i].aliases,
                    ) && find_unit(word, rest)->0 == (UnitView {
                        name: rest[i].primary_name,
                        factor: rest[i].factor,
                    });
                assert(registry[i + 1] == rest[i]);
            } else {
                assert forall|i: int| 0 <= i < registry.len() implies !is_named(
                    word,
                    (#[trigger] registry[i]).primary_name,
                    registry[i].aliases,
                ) by {
                    if i > 0 {
                        assert(rest[i - 1] == registry[i]);
                    }
                }
            }
        }
    }
}

/// Units are found in upper and lower case alike.
pub proof fn law_unit_case(a: Seq<char>, b: Seq<char>, registry: Seq<UnitDefView>)
    requires
        lower_case(a) == lower_case(b),
    ensures
        find_unit(a, registry) == find_unit(b, registry),
    decreases registry.len(),
{
    if registry.len() > 0 {
        law_unit_case(a, b, registry.skip(1));
    }
}

/// Loading units keeps those that there are.
proof fn lemma_standard_units_stay(limit: nat, now: int, confs: Seq<UnitConfigView>)
    ensures
        match with_custom_units(limit, now, confs) {
            Some((registry, funcs)) => registry.len() >= 4 && registry.take(4)
                == standard_units(),
            None => true,
        },
    decreases confs.len(),
{
    if confs.len() == 0 {
        assert(standard_units().take(4) =~= standard_units());
    } else {
        lemma_standard_units_stay(limit, now, confs.drop_last());
        if let Some((registry, funcs)) = with_custom_units(limit, now, confs.drop_last()) {
            if let Some((after, fs)) = with_custom_unit(
                limit,
                now,
                confs.last(),
                registry,
                funcs,
            ) {
                assert(after.take(4) =~= registry.take(4));
            }
        }
    }
}

/// A unit is found in a registry that holds it, sorted or not.
proof fn lemma_sorted_unit_is_found(registry: Seq<UnitDefView>, i: int)
    requires
        0 <= i < registry.len(),
    ensures
        find_unit(registry[i].primary_name, by_length(registry)) is Some,
{
    broadcast use vstd::seq_lib::group_to_multiset_ensures;

    let word = registry[i].primary_name;
    let sorted = by_length(registry);
    law_sorting_is_stable(registry, 0real);
    assert(registry.contains(registry[i]));
    assert(registry.to_multiset().count(registry[i]) > 0);
    assert(sorted.to_multiset().count(registry[i]) > 0);
    assert(sorted.contains(registry[i]));
    let k = choose|k: int| 0 <= k < sorted.len() && sorted[k] == registry[i];
    assert(is_named(word, sorted[k].primary_name, sorted[k].aliases));
    law_unit_is_found(word, sorted);
}

/// Under every configuration the units stand from the longest to the shortest, and days,
/// hours, minutes and seconds are among them.
pub proof fn law_registry_is_complete(limit: nat, now: int, config: ConfigView)
    ensures
        match registry_at(limit, now, config) {
            Some((registry, funcs)) => is_descending(registry) && default_units(registry) is Some,
            None => true,
        },
{
    if let Some((registry, funcs)) = with_custom_units(limit, now, config.units) {
        lemma_standard_units_stay(limit, now, config.units);
        law_sorting_is_stable(registry, 0real);
        let first = registry.take(4);
        assert(registry[0] == first[0] && registry[1] == first[1] && registry[2] == first[2]
            && registry[3] == first[3]);
        lemma_sorted_unit_is_found(registry, 0);
        lemma_sorted_unit_is_found(registry, 1);
        lemma_sorted_unit_is_found(registry, 2);
        lemma_sorted_unit_is_found(registry, 3);
    }
}

/// Parameters that are no word with a number behind it, or whose word means something by
/// itself, leave the tokens of a definition as they are.
pub proof fn law_plain_names_change_nothing(
    conf: FuncConfigView,
    registry: Seq<UnitDefView>,
    funcs: Seq<FuncView>,
)
    requires
        forall|i: int|
            0 <= i < conf.arguments.len() ==> !is_joined(
                #[trigger] conf.arguments[i],
                conf.arguments,
                registry,
                funcs,
            ),
    ensures
        definition_tokens(conf, registry, funcs) == tokens_of(conf.definition),
{
    let names = conf.arguments;
    lemma_nothing_joined(names.len() as int, names, registry, funcs);
    lemma_lexed_without_names(conf.definition);
}

/// No name is joined where none is a word with a number behind it.
proof fn lemma_nothing_joined(
    n: int,
    names: Seq<Seq<char>>,
    registry: Seq<UnitDefView>,
    funcs: Seq<FuncView>,
)
    requires
        n <= names.len(),
        forall|i: int|
            0 <= i < names.len() ==> !is_joined(#[trigger] names[i], names, registry, funcs),
    ensures
        joined_names(n, names, registry, funcs) == Seq::<Seq<char>>::empty(),
    decreases n,
{
    if n > 0 {
        assert(!is_joined(names[n - 1], names, registry, funcs));
        lemma_nothing_joined(n - 1, names, registry, funcs);
    }
}

/// The value that a line comes to, where it comes to a duration.
pub open spec fn duration_of(
    limit: nat,
    now: int,
    line: Seq<char>,
    registry: Seq<UnitDefView>,
    funcs: Seq<FuncView>,
) -> Option<real> {
    match line_at(limit, now, line, None, registry, funcs) {
        Some((Ok((text, Some(v))), after)) => match bare(v) {
            ValueView::Duration(x) => Some(x),
            _ => None,
        },
        _ => None,
    }
}

/// Where all units load, so do those before one of them, and they stay.
proof fn lemma_units_before(limit: nat, now: int, confs: Seq<UnitConfigView>, k: int)
    requires
        0 <= k <= confs.len(),
        with_custom_units(limit, now, confs) is Some,
    ensures
        ({
            let before = with_custom_units(limit, now, confs.take(k));
            let (some, fs) = before->0;
            let (all, funcs) = with_custom_units(limit, now, confs)->0;
            before is Some && some.len() <= all.len() && some == all.take(some.len() as int)
        }),
    decreases confs.len(),
{
    let (all, funcs) = with_custom_units(limit, now, confs)->0;
    if k == confs.len() {
        assert(confs.take(k) =~= confs);
        assert(all.take(all.len() as int) =~= all);
    } else {
        let rest = confs.drop_last();
        lemma_units_before(limit, now, rest, k);
        assert(rest.take(k) =~= confs.take(k));
        let (some, fs) = with_custom_units(limit, now, confs.take(k))->0;
        let (most, gs) = with_custom_units(limit, now, rest)->0;
        assert(all.take(most.len() as int) =~= most);
        assert(most.take(some.len() as int) =~= all.take(some.len() as int));
    }
}

/// A unit of the configuration whose value comes to a duration is in the registry, as long
/// as that duration and with its names. Its value may speak of the units above it.
pub proof fn law_custom_unit_is_loaded(limit: nat, now: int, config: ConfigView, k: int)
    requires
        registry_at(limit, now, config) is Some,
        0 <= k < config.units.len(),
    ensures
        ({
            let (registry, funcs) = registry_at(limit, now, config)->0;
            let above = with_custom_units(limit, now, config.units.take(k));
            let (units, fs) = above->0;
            let conf = config.units[k];
            above is Some && match duration_of(limit, now, conf.value, units, fs) {
                Some(x) => registry.contains(
                    UnitDefView { primary_name: conf.name, factor: x, aliases: conf.aliases },
                ),
                None => true,
            }
        }),
{
    broadcast use vstd::seq_lib::group_to_multiset_ensures;

    let confs = config.units;
    let (all, funcs) = with_custom_units(limit, now, confs)->0;
    let conf = confs[k];
    lemma_units_before(limit, now, confs, k);
    lemma_units_before(limit, now, confs, k + 1);
    assert(confs.take(k + 1).drop_last() =~= confs.take(k));
    assert(confs.take(k + 1).last() == conf);
    let (units, fs) = with_custom_units(limit, now, confs.take(k))->0;
    let (after, gs) = with_custom_units(limit, now, confs.take(k + 1))->0;
    if let Some(x) = duration_of(limit, now, conf.value, units, fs) {
        let u = UnitDefView { primary_name: conf.name, factor: x, aliases: conf.aliases };
        assert(after.last() == u);
        assert(all[after.len() - 1] == u);
        assert(all.contains(u));
        law_sorting_is_stable(all, 0real);
        assert(all.to_multiset().count(u) > 0);
        assert(by_length(all).to_multiset().count(u) > 0);
    }
}

/// Every unit of the registry is one of days, hours, minutes and seconds, or one of the
/// configuration, as long as the duration that its value comes to.
pub proof fn law_units_come_from_configuration(
    limit: nat,
    now: int,
    config: ConfigView,
    u: UnitDefView,
)
    requires
        registry_at(limit, now, config) is Some,
        ({
            let (registry, funcs) = registry_at(limit, now, config)->0;
            registry.contains(u)
        }),
    ensures
        standard_units().contains(u) || exists|k: int|
            is_unit_of(limit, now, #[trigger] config.units[k], config.units.take(k), u) && 0 <= k
                < config.units.len(),
{
    broadcast use vstd::seq_lib::group_to_multiset_ensures;

    let (all, funcs) = with_custom_units(limit, now, config.units)->0;
    law_sorting_is_stable(all, 0real);
    assert(by_length(all).to_multiset().count(u) > 0);
    assert(all.to_multiset().count(u) > 0);
    assert(all.contains(u));
    lemma_units_come_from(limit, now, config.units, u);
}

/// Whether `u` is the unit that `conf` defines, with the units of `above` at hand.
pub open spec fn is_unit_of(
    limit: nat,
    now: int,
    conf: UnitConfigView,
    above: Seq<UnitConfigView>,
    u: UnitDefView,
) -> bool {
    let (units, funcs) = with_custom_units(limit, now, above)->0;
    &&& with_custom_units(limit, now, above) is Some
    &&& u.primary_name == conf.name
    &&& u.aliases == conf.aliases
    &&& duration_of(limit, now, conf.value, units, funcs) == Some(u.factor)
}

/// A unit that was loaded is a standard one or one of those that were to be.
proof fn lemma_units_come_from(
    limit: nat,
    now: int,
    confs: Seq<UnitConfigView>,
    u: UnitDefView,
)
    requires
        with_custom_units(limit, now, confs) is Some,
        ({
            let (registry, funcs) = with_custom_units(limit, now, confs)->0;
            registry.contains(u)
        }),
    ensures
        standard_units().contains(u) || exists|k: int|
            is_unit_of(limit, now, #[trigger] confs[k], confs.take(k), u) && 0 <= k < confs.len(),
    decreases confs.len(),
{
    if confs.len() > 0 {
        let rest = confs.drop_last();
        let last = confs.len() - 1;
        let (registry, funcs) = with_custom_units(limit, now, rest)->0;
        let (all, fs) = with_custom_units(limit, now, confs)->0;
        assert(confs.take(last) =~= rest);
        let i = choose|i: int| 0 <= i < all.len() && all[i] == u;
        if i < registry.len() {
            assert(registry[i] == u);
            lemma_units_come_from(limit, now, rest, u);
            if !standard_units().contains(u) {
                let k = choose|k: int|
                    is_unit_of(limit, now, #[trigger] rest[k], rest.take(k), u) && 0 <= k
                        < rest.len();
                assert(confs[k] == rest[k]);
                assert(confs.take(k) =~= rest.take(k));
            }
        } else {
            assert(is_unit_of(limit, now, confs[last], confs.take(last), u));
        }
    }
}

/// Loading functions keeps those that there are.
proof fn lemma_functions_before(
    confs: Seq<FuncConfigView>,
    registry: Seq<UnitDefView>,
    funcs: Seq<FuncView>,
    k: int,
)
    requires
        0 <= k <= confs.len(),
    ensures
        ({
            let some = with_custom_functions(confs.take(k), registry, funcs);
            let all = with_custom_functions(confs, registry, funcs);
            some.len() <= all.len() && some == all.take(some.len() as int)
        }),
    decreases confs.len(),
{
    let all = with_custom_functions(confs, registry, funcs);
    if k == confs.len() {
        assert(confs.take(k) =~= confs);
        assert(all.take(all.len() as int) =~= all);
    } else {
        let rest = confs.drop_last();
        lemma_functions_before(rest, registry, funcs, k);
        assert(rest.take(k) =~= confs.take(k));
        let some = with_custom_functions(confs.take(k), registry, funcs);
        let most = with_custom_functions(rest, registry, funcs);
        assert(all.take(most.len() as int) =~= most);
        assert(most.take(some.len() as int) =~= all.take(some.len() as int));
    }
}

/// A function of the configuration whose definition is an expression is there, with its
/// names and parameters and that expression, behind the functions above it.
pub proof fn law_custom_function_is_loaded(
    confs: Seq<FuncConfigView>,
    registry: Seq<UnitDefView>,
    funcs: Seq<FuncView>,
    k: int,
)
    requires
        0 <= k < confs.len(),
    ensures
        ({
            let conf = confs[k];
            let above = with_custom_functions(confs.take(k), registry, funcs);
            let all = with_custom_functions(confs, registry, funcs);
            match definition_tokens(conf, registry, above) {
                Ok(tokens) => match expression_of(tokens, registry, Seq::empty()) {
                    Ok((body, units)) => above.len() < all.len() && all[above.len() as int].name
                        == conf.name && all[above.len() as int].aliases == conf.aliases
                        && all[above.len() as int].args == conf.arguments
                        && all[above.len() as int].body == body,
                    Err(e) => true,
                },
                Err(e) => true,
            }
        }),
{
    let above = with_custom_functions(confs.take(k), registry, funcs);
    let all = with_custom_functions(confs, registry, funcs);
    lemma_functions_before(confs, registry, funcs, k + 1);
    assert(confs.take(k + 1).drop_last() =~= confs.take(k));
    assert(confs.take(k + 1).last() == confs[k]);
    let after = with_custom_functions(confs.take(k + 1), registry, funcs);
    if after.len() > above.len() {
        assert(after[above.len() as int] == all[above.len() as int]);
    }
}

/// The functions of a configuration are read with its units in the order in which they are
/// given, behind the usual four, and behind the functions that those define; the units are
/// sorted after that.
pub proof fn law_functions_are_read_before_sorting(limit: nat, now: int, config: ConfigView)
    ensures
        registry_at(limit, now, config) is Some <==> with_custom_units(
            limit,
            now,
            config.units,
        ) is Some,
        registry_at(limit, now, config) is Some ==> {
            let (units, fs) = with_custom_units(limit, now, config.units)->0;
            let (registry, funcs) = registry_at(limit, now, config)->0;
            &&& funcs == with_custom_functions(config.functions, units, fs)
            &&& registry.to_multiset() == units.to_multiset()
            &&& is_descending(registry)
            &&& units.take(4) == standard_units()
        },
{
    if let Some((units, fs)) = with_custom_units(limit, now, config.units) {
        lemma_standard_units_stay(limit, now, config.units);
        law_sorting_is_stable(units, 0real);
    }
}

/// The value of a unit is a line of input like any other: what it defines is defined for
/// those that follow. A unit whose value comes to no duration is left out.
pub proof fn law_unit_values_are_lines(limit: nat, now: int, confs: Seq<UnitConfigView>)
    requires
        confs.len() > 0,
        with_custom_units(limit, now, confs) is Some,
    ensures
        ({
            let above = with_custom_units(limit, now, confs.drop_last());
            let (units, funcs) = above->0;
            let (all, after) = with_custom_units(limit, now, confs)->0;
            let line = confs.last().value;
            &&& above is Some
            &&& line_at(limit, now, line, None, units, funcs) matches Some((answer, defined))
                && after == defined
            &&& duration_of(limit, now, line, units, funcs) is None ==> all == units
            &&& duration_of(limit, now, line, units, funcs) is Some ==> all.len() == units.len()
                + 1 && all.drop_last() == units
        }),
{
    let (units, funcs) = with_custom_units(limit, now, confs.drop_last())->0;
    let (all, after) = with_custom_units(limit, now, confs)->0;
    if all.len() > units.len() {
        assert(all.drop_last() =~= units);
    }
}

/// A parameter of a word and a number, of which the word alone means nothing, is one word
/// in the definition, up to the next character that is neither a letter, a digit nor a
/// point.
pub proof fn law_numbered_parameter_is_one_word(
    name: Seq<char>,
    names: Seq<Seq<char>>,
    registry: Seq<UnitDefView>,
    funcs: Seq<FuncView>,
    rest: Seq<char>,
)
    requires
        names.contains(name),
        is_joined(name, names, registry, funcs),
        rest.len() > 0 ==> !is_letter(rest[0]) && !is_digit(rest[0]) && rest[0] != '.',
    ensures
        ({
            let joined = joined_names(names.len() as int, names, registry, funcs);
            match lexed_with(rest, joined) {
                Ok(tokens) => lexed_with(name + rest, joined) == Ok::<Seq<TokenView>, Seq<char>>(
                    seq![TokenView::Ident(name)] + tokens,
                ),
                Err(e) => lexed_with(name + rest, joined) == Err::<Seq<TokenView>, Seq<char>>(e),
            }
        }),
{
    let joined = joined_names(names.len() as int, names, registry, funcs);
    let k = choose|k: int| 0 <= k < names.len() && names[k] == name;
    lemma_joined_contains(names.len() as int, names, registry, funcs, k);
    let s = name + rest;
    let n = name.len() as int;
    let letters = class_run(name, Class::Word);
    let p = |c: char| in_class(Class::Word, c);
    let q = |c: char| in_class(Class::Number, c);
    lemma_run(name, p);
    assert forall|i: int| 0 <= i < letters implies p(#[trigger] s[i]) by {
        assert(s[i] == name[i]);
        assert(p(name[i]));
    }
    assert(s[letters] == name[letters]);
    assert(!p(name[letters]));
    lemma_run_is(s, p, letters);
    let behind = s.skip(letters);
    assert forall|i: int| 0 <= i < n - letters implies q(#[trigger] behind[i]) by {
        assert(behind[i] == name[letters + i]);
        assert(is_digit(name[letters + i]));
    }
    if rest.len() > 0 {
        assert(behind[n - letters] == rest[0]);
        assert(s[n] == rest[0]);
    }
    lemma_run_is(behind, q, n - letters);
    assert(name_run(s) == n);
    assert(s.take(n) =~= name);
    assert(s.skip(n) =~= rest);
    assert(p(s[0]));
    assert(name_at(s, joined) == Some(n));
}

/// Each name that is read as one word is among the first that are.
proof fn lemma_joined_contains(
    n: int,
    names: Seq<Seq<char>>,
    registry: Seq<UnitDefView>,
    funcs: Seq<FuncView>,
    k: int,
)
    requires
        0 <= k < n <= names.len(),
        is_joined(names[k], names, registry, funcs),
    ensures
        joined_names(n, names, registry, funcs).contains(names[k]),
    decreases n,
{
    let all = joined_names(n, names, registry, funcs);
    let before = joined_names(n - 1, names, registry, funcs);
    if k == n - 1 {
        assert(all.last() == names[k]);
        assert(all[all.len() - 1] == names[k]);
    } else {
        lemma_joined_contains(n - 1, names, registry, funcs, k);
        let i = choose|i: int| 0 <= i < before.len() && before[i] == names[k];
        assert(all[i] == names[k]);
    }
}

/// A parameter of a word and a number keeps apart where the word alone names a parameter, a
/// unit or a function.
pub proof fn law_meaningful_words_stay_apart(
    word: Seq<char>,
    digits: Seq<char>,
    names: Seq<Seq<char>>,
    registry: Seq<UnitDefView>,
    funcs: Seq<FuncView>,
)
    requires
        digits.len() > 0,
        forall|i: int| 0 <= i < word.len() ==> is_letter(#[trigger] word[i]),
        !is_letter(digits[0]),
        names.contains(word) || find_unit(word, registry) is Some || find_func(word, funcs)
            is Some,
    ensures
        !is_joined(word + digits, names, registry, funcs),
{
    let name = word + digits;
    let n = word.len() as int;
    let p = |c: char| in_class(Class::Word, c);
    assert forall|i: int| 0 <= i < n implies p(#[trigger] name[i]) by {
        assert(name[i] == word[i]);
    }
    assert(name[n] == digits[0]);
    lemma_run_is(name, p, n);
    assert(name.take(n) =~= word);
}

} // verus!
