//! The units and functions that there are from the start.

use crate::eval::{find_func, find_function};
use crate::format::bare;
use crate::lexer::{
    class_run, is_name, read_word, run_end, tokenize_with, tokens_with, word_token, Class,
};
use crate::number::{is_digit, Rational};
use crate::session::{
    day_length, evaluate_within, expression_of, is_reading, line_at, read_clock,
    read_expression,
};
use crate::syntax::{
    copy_texts, defs_view, funcs_view, texts, FuncDef, FuncView, Token, TokenView, UnitDef,
    UnitDefView, Value, ValueView,
};
use crate::text::{chars_of, text_between};
use crate::units::{find_unit, parse_single_unit};
use vstd::prelude::*;

verus! {

/// A unit as the configuration has it: what its length is, as a line of input.
#[derive(Debug)]
pub struct CustomUnitConfig {
    pub name: String,
    pub aliases: Vec<String>,
    pub value: String,
}

/// A function as the configuration has it: what its body is, as a line of input.
#[derive(Debug)]
pub struct FuncConfig {
    pub name: String,
    pub aliases: Vec<String>,
    pub arguments: Vec<String>,
    pub definition: String,
}

/// The configuration: units and functions, in the order in which they are loaded.
#[derive(Debug)]
pub struct Config {
    pub units: Vec<CustomUnitConfig>,
    pub functions: Vec<FuncConfig>,
}

/// The model of a `CustomUnitConfig`.
#[verifier::ext_equal]
pub struct UnitConfigView {
    pub name: Seq<char>,
    pub aliases: Seq<Seq<char>>,
    pub value: Seq<char>,
}

/// The model of a `FuncConfig`.
#[verifier::ext_equal]
pub struct FuncConfigView {
    pub name: Seq<char>,
    pub aliases: Seq<Seq<char>>,
    pub arguments: Seq<Seq<char>>,
    pub definition: Seq<char>,
}

/// The model of a `Config`.
#[verifier::ext_equal]
pub struct ConfigView {
    pub units: Seq<UnitConfigView>,
    pub functions: Seq<FuncConfigView>,
}

impl View for CustomUnitConfig {
    type V = UnitConfigView;

    open spec fn view(&self) -> UnitConfigView {
        UnitConfigView {
            name: self.name@,
            aliases: texts(self.aliases@),
            value: self.value@,
        }
    }
}

impl View for FuncConfig {
    type V = FuncConfigView;

    open spec fn view(&self) -> FuncConfigView {
        FuncConfigView {
            name: self.name@,
            aliases: texts(self.aliases@),
            arguments: texts(self.arguments@),
            definition: self.definition@,
        }
    }
}

impl View for Config {
    type V = ConfigView;

    open spec fn view(&self) -> ConfigView {
        ConfigView {
            units: self.units@.map_values(|c: CustomUnitConfig| c@),
            functions: self.functions@.map_values(|c: FuncConfig| c@),
        }
    }
}

/// Days, hours, minutes and seconds.
pub open spec fn standard_units() -> Seq<UnitDefView> {
    seq![
        UnitDefView {
            primary_name: "d"@,
            factor: 86400real,
            aliases: seq!["day"@, "days"@],
        },
        UnitDefView {
            primary_name: "h"@,
            factor: 3600real,
            aliases: seq!["hr"@, "hrs"@, "hour"@, "hours"@],
        },
        UnitDefView {
            primary_name: "m"@,
            factor: 60real,
            aliases: seq!["min"@, "mins"@, "minute"@, "minutes"@],
        },
        UnitDefView {
            primary_name: "s"@,
            factor: 1real,
            aliases: seq!["sec"@, "secs"@, "second"@, "seconds"@],
        },
    ]
}

/// The units and functions once a unit is loaded. Its value is a line of input: where that
/// is a duration, the unit is as long; a value that is no duration adds no unit.
pub open spec fn with_custom_unit(
    limit: nat,
    now: int,
    conf: UnitConfigView,
    registry: Seq<UnitDefView>,
    funcs: Seq<FuncView>,
) -> Option<(Seq<UnitDefView>, Seq<FuncView>)> {
    match line_at(limit, now, conf.value, None, registry, funcs) {
        None => None,
        Some((Ok((text, Some(v))), after)) => match bare(v) {
            ValueView::Duration(seconds) => Some(
                (
                    registry.push(
                        UnitDefView {
                            primary_name: conf.name,
                            factor: seconds,
                            aliases: conf.aliases,
                        },
                    ),
                    after,
                ),
            ),
            _ => Some((registry, after)),
        },
        Some((answer, after)) => Some((registry, after)),
    }
}

/// The standard units and those of the configuration, which may use the ones before them.
pub open spec fn with_custom_units(limit: nat, now: int, confs: Seq<UnitConfigView>) -> Option<
    (Seq<UnitDefView>, Seq<FuncView>),
>
    decreases confs.len(),
{
    if confs.len() == 0 {
        Some((standard_units(), Seq::empty()))
    } else {
        match with_custom_units(limit, now, confs.drop_last()) {
            None => None,
            Some((registry, funcs)) => with_custom_unit(
                limit,
                now,
                confs.last(),
                registry,
                funcs,
            ),
        }
    }
}

/// Whether the name is a word with a number behind it.
pub open spec fn is_numbered(name: Seq<char>) -> bool {
    let letters = class_run(name, Class::Word);
    &&& 0 < letters < name.len()
    &&& word_token(name.take(letters)) is Ident
    &&& forall|i: int| letters <= i < name.len() ==> is_digit(#[trigger] name[i])
}

/// Whether a word means something by itself: a parameter, a unit or a function.
pub open spec fn has_meaning(
    word: Seq<char>,
    names: Seq<Seq<char>>,
    registry: Seq<UnitDefView>,
    funcs: Seq<FuncView>,
) -> bool {
    names.contains(word) || find_unit(word, registry) is Some || find_func(word, funcs) is Some
}

/// Whether the name is a word with a number behind it, and the word alone means nothing.
pub open spec fn is_joined(
    name: Seq<char>,
    names: Seq<Seq<char>>,
    registry: Seq<UnitDefView>,
    funcs: Seq<FuncView>,
) -> bool {
    is_numbered(name) && !has_meaning(
        name.take(class_run(name, Class::Word)),
        names,
        registry,
        funcs,
    )
}

/// The first `n` of the names of parameters, of those that are read as one word with the
/// number behind it. Where the word alone means something, it keeps that meaning.
pub open spec fn joined_names(
    n: int,
    names: Seq<Seq<char>>,
    registry: Seq<UnitDefView>,
    funcs: Seq<FuncView>,
) -> Seq<Seq<char>>
    decreases n,
{
    if n <= 0 {
        Seq::empty()
    } else if is_joined(names[n - 1], names, registry, funcs) {
        joined_names(n - 1, names, registry, funcs).push(names[n - 1])
    } else {
        joined_names(n - 1, names, registry, funcs)
    }
}

/// The tokens of a function's definition, in which a parameter such as `arg1` is one word.
pub open spec fn definition_tokens(
    conf: FuncConfigView,
    registry: Seq<UnitDefView>,
    funcs: Seq<FuncView>,
) -> Result<Seq<TokenView>, Seq<char>> {
    let names = conf.arguments;
    tokens_with(conf.definition, joined_names(names.len() as int, names, registry, funcs))
}

/// The functions once one is loaded: it is left out where its definition is no expression.
pub open spec fn with_custom_function(
    conf: FuncConfigView,
    registry: Seq<UnitDefView>,
    funcs: Seq<FuncView>,
) -> Seq<FuncView> {
    match definition_tokens(conf, registry, funcs) {
        Err(e) => funcs,
        Ok(tokens) => match expression_of(tokens, registry, Seq::empty()) {
            Err(e) => funcs,
            Ok((body, units)) => funcs.push(
                FuncView {
                    name: conf.name,
                    aliases: conf.aliases,
                    args: conf.arguments,
                    body,
                },
            ),
        },
    }
}

/// The functions, and behind them those of the configuration.
pub open spec fn with_custom_functions(
    confs: Seq<FuncConfigView>,
    registry: Seq<UnitDefView>,
    funcs: Seq<FuncView>,
) -> Seq<FuncView>
    decreases confs.len(),
{
    if confs.len() == 0 {
        funcs
    } else {
        with_custom_function(
            confs.last(),
            registry,
            with_custom_functions(confs.drop_last(), registry, funcs),
        )
    }
}

/// The units with `u` among them, behind those that are not shorter.
pub open spec fn inserted(units: Seq<UnitDefView>, u: UnitDefView) -> Seq<UnitDefView>
    decreases units.len(),
{
    if units.len() == 0 || units.last().factor >= u.factor {
        units.push(u)
    } else {
        inserted(units.drop_last(), u).push(units.last())
    }
}

/// The units from the longest to the shortest; units of one length keep their order.
pub open spec fn by_length(units: Seq<UnitDefView>) -> Seq<UnitDefView>
    decreases units.len(),
{
    if units.len() == 0 {
        Seq::empty()
    } else {
        inserted(by_length(units.drop_last()), units.last())
    }
}

/// The units, from the longest to the shortest, and the functions that there are under a
/// configuration. It is `None` where evaluating a unit comes to nothing.
pub open spec fn registry_at(limit: nat, now: int, config: ConfigView) -> Option<
    (Seq<UnitDefView>, Seq<FuncView>),
> {
    match with_custom_units(limit, now, config.units) {
        None => None,
        Some((registry, funcs)) => Some(
            (
                by_length(registry),
                with_custom_functions(config.functions, registry, funcs),
            ),
        ),
    }
}

/// The names that a unit of the registry goes by besides its own.
fn names(words: &[&str]) -> (r: Vec<String>)
    ensures
        texts(r@) == words@.map_values(|w: &str| w@),
{
    let ghost all = words@.map_values(|w: &str| w@);
    let mut r: Vec<String> = Vec::new();
    let mut i: usize = 0;
    assert(texts(r@) =~= all.take(0));
    while i < words.len()
        invariant
            all == words@.map_values(|w: &str| w@),
            i <= words@.len(),
            texts(r@) == all.take(i as int),
        decreases words@.len() - i,
    {
        let ghost done = texts(r@);
        r.push(words[i].to_owned());
        proof {
            assert(texts(r@) =~= done.push(words@[i as int]@));
            assert(all.take(i + 1) =~= done.push(all[i as int]));
        }
        i = i + 1;
    }
    assert(all.take(i as int) =~= all);
    r
}

/// Days, hours, minutes and seconds.
pub fn default_registry() -> (r: Vec<UnitDef>)
    ensures
        defs_view(r@) == standard_units(),
{
    let mut r: Vec<UnitDef> = Vec::new();
    r.push(
        UnitDef {
            primary_name: "d".to_owned(),
            factor: Rational::from_i64(86400),
            aliases: names(&["day", "days"]),
        },
    );
    r.push(
        UnitDef {
            primary_name: "h".to_owned(),
            factor: Rational::from_i64(3600),
            aliases: names(&["hr", "hrs", "hour", "hours"]),
        },
    );
    r.push(
        UnitDef {
            primary_name: "m".to_owned(),
            factor: Rational::from_i64(60),
            aliases: names(&["min", "mins", "minute", "minutes"]),
        },
    );
    r.push(
        UnitDef {
            primary_name: "s".to_owned(),
            factor: Rational::from_i64(1),
            aliases: names(&["sec", "secs", "second", "seconds"]),
        },
    );
    proof {
        assert(texts(r@[0].aliases@) =~= standard_units()[0].aliases);
        assert(texts(r@[1].aliases@) =~= standard_units()[1].aliases);
        assert(texts(r@[2].aliases@) =~= standard_units()[2].aliases);
        assert(texts(r@[3].aliases@) =~= standard_units()[3].aliases);
        assert(defs_view(r@) =~= standard_units());
    }
    r
}

/// Loads a unit of the configuration, and says whether evaluating it comes to something.
fn load_unit(
    limit: usize,
    now: u32,
    conf: &CustomUnitConfig,
    registry: &mut Vec<UnitDef>,
    funcs: &mut Vec<FuncDef>,
) -> (r: bool)
    ensures
        match with_custom_unit(
            limit as nat,
            now as int,
            conf@,
            defs_view(old(registry)@),
            funcs_view(old(funcs)@),
        ) {
            Some((defs, after)) => r && defs_view(final(registry)@) == defs && funcs_view(
                final(funcs)@,
            ) == after,
            None => !r,
        },
{
    let ghost before = defs_view(registry@);
    match evaluate_within(limit, now, conf.value.as_str(), None, registry.as_slice(), funcs) {
        None => false,
        Some(Ok((_, Some(value)))) => {
            let (v, _) = value.unwrap();
            match v {
                Value::Duration(seconds) => {
                    let def: UnitDef = UnitDef {
                        primary_name: conf.name.clone(),
                        factor: seconds,
                        aliases: copy_texts(&conf.aliases),
                    };
                    registry.push(def);
                    assert(defs_view(registry@) =~= before.push(def@));
                    true
                },
                _ => true,
            }
        },
        Some(_) => true,
    }
}

/// Where the letters of a name end that is a word with a number behind it.
fn numbered_word(name: &Vec<char>) -> (r: Option<usize>)
    ensures
        match r {
            Some(n) => n <= name@.len() && is_numbered(name@) && n == class_run(
                name@,
                Class::Word,
            ),
            None => !is_numbered(name@),
        },
{
    let letters: usize = run_end(name, 0, Class::Word);
    assert(name@.skip(0) =~= name@);
    let len: usize = name.len();
    if letters == 0 || letters == len {
        return None;
    }
    assert(name@.subrange(0, letters as int) =~= name@.take(letters as int));
    match read_word(text_between(name, 0, letters)) {
        Token::Ident(_) => {},
        _ => return None,
    }
    let mut i: usize = letters;
    while i < len
        invariant
            len == name@.len(),
            letters <= i <= len,
            letters == class_run(name@, Class::Word),
            forall|j: int| letters <= j < i ==> is_digit(#[trigger] name@[j]),
        decreases len - i,
    {
        if !('0' <= name[i] && name[i] <= '9') {
            return None;
        }
        i = i + 1;
    }
    Some(letters)
}

/// Whether a word means something by itself.
fn means_something(word: &str, names: &Vec<String>, registry: &[UnitDef], funcs: &[FuncDef]) -> (r:
    bool)
    ensures
        r == has_meaning(word@, texts(names@), defs_view(registry@), funcs_view(funcs@)),
{
    let chars: Vec<char> = chars_of(word);
    assert(chars@.subrange(0, chars@.len() as int) =~= word@);
    is_name(&chars, 0, chars.len(), names) || parse_single_unit(word, registry).is_ok()
        || find_function(word, funcs).is_some()
}

/// The names of parameters that are read as one word with the number behind it.
fn names_to_join(names: &Vec<String>, registry: &[UnitDef], funcs: &[FuncDef]) -> (r: Vec<String>)
    ensures
        texts(r@) == joined_names(
            names@.len() as int,
            texts(names@),
            defs_view(registry@),
            funcs_view(funcs@),
        ),
{
    let ghost all = texts(names@);
    let ghost defs = defs_view(registry@);
    let ghost fs = funcs_view(funcs@);
    let mut r: Vec<String> = Vec::new();
    let mut i: usize = 0;
    assert(texts(r@) =~= Seq::<Seq<char>>::empty());
    while i < names.len()
        invariant
            all == texts(names@),
            defs == defs_view(registry@),
            fs == funcs_view(funcs@),
            i <= names@.len(),
            texts(r@) == joined_names(i as int, all, defs, fs),
        decreases names@.len() - i,
    {
        let ghost done = texts(r@);
        assert(all[i as int] == names@[i as int]@);
        let chars: Vec<char> = chars_of(names[i].as_str());
        if let Some(n) = numbered_word(&chars) {
            let word: String = text_between(&chars, 0, n);
            assert(word@ =~= all[i as int].take(n as int));
            if !means_something(word.as_str(), names, registry, funcs) {
                r.push(names[i].clone());
                assert(texts(r@) =~= done.push(all[i as int]));
            }
        }
        i = i + 1;
    }
    r
}

/// Loads a function of the configuration.
fn load_function(conf: &FuncConfig, registry: &[UnitDef], funcs: &mut Vec<FuncDef>)
    ensures
        funcs_view(final(funcs)@) == with_custom_function(
            conf@,
            defs_view(registry@),
            funcs_view(old(funcs)@),
        ),
{
    let ghost before = funcs_view(funcs@);
    let empty: String = String::new();
    let names: Vec<String> = names_to_join(&conf.arguments, registry, funcs.as_slice());
    if let Ok(tokens) = tokenize_with(conf.definition.as_str(), &names) {
        if let Ok((body, _)) = read_expression(tokens, registry, empty.as_str()) {
            let def: FuncDef = FuncDef {
                name: conf.name.clone(),
                aliases: copy_texts(&conf.aliases),
                args: copy_texts(&conf.arguments),
                body,
            };
            funcs.push(def);
            assert(funcs_view(funcs@) =~= before.push(def@));
        }
    }
}

/// Puts `u` behind the units that are not shorter.
fn insert_unit(units: &mut Vec<UnitDef>, u: UnitDef)
    ensures
        defs_view(final(units)@) == inserted(defs_view(old(units)@), u@),
{
    let ghost all = units@;
    let mut at: usize = units.len();
    assert(all.take(at as int) =~= all && all.skip(at as int) =~= Seq::<UnitDef>::empty());
    assert(defs_view(all.skip(at as int)) =~= Seq::<UnitDefView>::empty());
    while at > 0 && units[at - 1].factor.is_less(&u.factor)
        invariant
            all == units@,
            at <= units@.len(),
            inserted(defs_view(all), u@) =~= inserted(defs_view(all.take(at as int)), u@)
                + defs_view(all.skip(at as int)),
        decreases at,
    {
        proof {
            let before = all.take(at as int);
            let behind = all.skip(at as int);
            let last = all[at - 1];
            assert(before.drop_last() =~= all.take(at - 1));
            assert(defs_view(before).drop_last() =~= defs_view(all.take(at - 1)));
            assert(defs_view(before).last() == last@);
            assert(defs_view(all.skip(at - 1)) =~= seq![last@] + defs_view(behind));
            let rest = inserted(defs_view(all.take(at - 1)), u@);
            assert(rest.push(last@) + defs_view(behind) =~= rest + (seq![last@] + defs_view(
                behind,
            )));
        }
        at = at - 1;
    }
    proof {
        let before = defs_view(all.take(at as int));
        if at > 0 {
            assert(before.last() == all[at - 1]@);
        }
        assert(inserted(before, u@) == before.push(u@));
    }
    units.insert(at, u);
    assert(defs_view(units@) =~= defs_view(all.take(at as int)).push(u@) + defs_view(
        all.skip(at as int),
    ));
}

/// Sorts units from the longest to the shortest.
pub fn sort_by_length(units: Vec<UnitDef>) -> (r: Vec<UnitDef>)
    ensures
        defs_view(r@) == by_length(defs_view(units@)),
{
    let ghost all = defs_view(units@);
    let mut sorted: Vec<UnitDef> = Vec::new();
    let mut i: usize = 0;
    assert(defs_view(sorted@) =~= Seq::<UnitDefView>::empty());
    while i < units.len()
        invariant
            all == defs_view(units@),
            i <= units@.len(),
            defs_view(sorted@) == by_length(all.take(i as int)),
        decreases units@.len() - i,
    {
        proof {
            assert(all.take(i + 1).drop_last() =~= all.take(i as int));
            assert(all.take(i + 1).last() == units@[i as int]@);
        }
        insert_unit(&mut sorted, units[i].clone());
        i = i + 1;
    }
    assert(all.take(i as int) =~= all);
    sorted
}

/// The units and functions that there are under a configuration that is loaded at `now`
/// seconds since midnight, where functions may call each other `limit` deep.
pub fn build_registry_within(limit: usize, now: u32, config: &Config) -> (r: Option<
    (Vec<UnitDef>, Vec<FuncDef>),
>)
    ensures
        match (r, registry_at(limit as nat, now as int, config@)) {
            (Some((registry, funcs)), Some((defs, fs))) => defs_view(registry@) == defs
                && funcs_view(funcs@) == fs,
            (None, None) => true,
            _ => false,
        },
{
    let mut registry: Vec<UnitDef> = default_registry();
    let mut funcs: Vec<FuncDef> = Vec::new();
    let ghost units = config@.units;
    let mut i: usize = 0;
    assert(funcs_view(funcs@) =~= Seq::<FuncView>::empty());
    while i < config.units.len()
        invariant
            units == config@.units,
            i <= config.units@.len(),
            with_custom_units(limit as nat, now as int, units.take(i as int)) == Some(
                (defs_view(registry@), funcs_view(funcs@)),
            ),
        decreases config.units@.len() - i,
    {
        proof {
            assert(units.take(i + 1).drop_last() =~= units.take(i as int));
            assert(units.take(i + 1).last() == config.units@[i as int]@);
        }
        if !load_unit(limit, now, &config.units[i], &mut registry, &mut funcs) {
            proof {
                lemma_no_units(limit as nat, now as int, units, i + 1);
            }
            return None;
        }
        i = i + 1;
    }
    assert(units.take(i as int) =~= units);
    let ghost functions = config@.functions;
    let ghost first = funcs_view(funcs@);
    let mut j: usize = 0;
    while j < config.functions.len()
        invariant
            functions == config@.functions,
            j <= config.functions@.len(),
            funcs_view(funcs@) == with_custom_functions(
                functions.take(j as int),
                defs_view(registry@),
                first,
            ),
        decreases config.functions@.len() - j,
    {
        proof {
            assert(functions.take(j + 1).drop_last() =~= functions.take(j as int));
            assert(functions.take(j + 1).last() == config.functions@[j as int]@);
        }
        load_function(&config.functions[j], registry.as_slice(), &mut funcs);
        j = j + 1;
    }
    assert(functions.take(j as int) =~= functions);
    Some((sort_by_length(registry), funcs))
}

/// A unit whose evaluation comes to nothing stands in the way of all behind it.
proof fn lemma_no_units(limit: nat, now: int, confs: Seq<UnitConfigView>, n: int)
    requires
        0 <= n <= confs.len(),
        with_custom_units(limit, now, confs.take(n)) is None,
    ensures
        with_custom_units(limit, now, confs) is None,
    decreases confs.len() - n,
{
    if n == confs.len() {
        assert(confs.take(n) =~= confs);
    } else {
        assert(confs.take(n + 1).drop_last() =~= confs.take(n));
        lemma_no_units(limit, now, confs, n + 1);
    }
}

/// The units and functions that there are under a configuration that is loaded now. It is
/// `None` where evaluating a unit comes to nothing.
pub fn build_registry(config: &Config) -> (r: Option<(Vec<UnitDef>, Vec<FuncDef>)>)
    ensures
        exists|now: int|
            is_reading(now) && 0 <= now < day_length() && match (
                r,
                #[trigger] registry_at(usize::MAX as nat, now, config@),
            ) {
                (Some((registry, funcs)), Some((defs, fs))) => defs_view(registry@) == defs
                    && funcs_view(funcs@) == fs,
                (None, None) => true,
                _ => false,
            },
{
    let now: u32 = read_clock();
    let r: Option<(Vec<UnitDef>, Vec<FuncDef>)> = build_registry_within(usize::MAX, now, config);
    assert(is_reading(now as int) && (now as int) < day_length());
    r
}

} // verus!
