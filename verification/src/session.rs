//! Evaluating lines of input, one after the other.

use crate::eval::{env_view, eval_at, eval_within, law_deeper_agrees, Scope, ScopeView};
use crate::format::{
    bare, can_format, format_value, is_writable, no_target, request, value_text,
};
use crate::lexer::{tokenize, tokens_of};
use crate::number::Rational;
use crate::parser::{parse_expr, parsed, CONCATENATION};
use crate::syntax::{
    defs_view, funcs_view, texts, tokens_view, units_view, ConversionTarget, Expr, ExprView,
    FormatUnit, FuncDef, FuncView, TargetView, Token, TokenView, UnitDef, UnitDefView, UnitView,
    Value, ValueView,
};
use crate::text::same_word;
use crate::units::{
    combine_contiguous_durations, combined, find_unit, form_durations, formed,
    parse_single_unit,
};
use chrono::Timelike;
use vstd::prelude::*;

verus! {

/// Whether `word` is one of the names, but for the case of ASCII letters.
pub open spec fn is_spelled(word: Seq<char>, name: Seq<char>, aliases: Seq<Seq<char>>) -> bool {
    same_word(name, word) || exists|i: int|
        0 <= i < aliases.len() && same_word(#[trigger] aliases[i], word)
}

/// Whether `word` is a name of a function.
pub open spec fn is_function_word(word: Seq<char>, funcs: Seq<FuncView>) -> bool {
    exists|i: int|
        0 <= i < funcs.len() && is_spelled(word, (#[trigger] funcs[i]).name, funcs[i].aliases)
}

/// Whether a unit of that name is among `units`.
pub open spec fn has_unit_named(units: Seq<UnitView>, name: Seq<char>) -> bool {
    exists|i: int| 0 <= i < units.len() && (#[trigger] units[i]).name == name
}

/// `units`, and behind them the units that words of the expression name and no function
/// does, from left to right, each once.
pub open spec fn collected(
    e: ExprView,
    units: Seq<UnitView>,
    registry: Seq<UnitDefView>,
    funcs: Seq<FuncView>,
) -> Seq<UnitView>
    decreases e,
{
    match e {
        ExprView::Ident(word) => match find_unit(word, registry) {
            Some(u) => if is_function_word(word, funcs) || has_unit_named(units, u.name) {
                units
            } else {
                units.push(u)
            },
            None => units,
        },
        ExprView::UnaryMinus(a) => collected(*a, units, registry, funcs),
        ExprView::To(a, target) => collected(*a, units, registry, funcs),
        ExprView::Add(a, b) => collected(
            *b,
            collected(*a, units, registry, funcs),
            registry,
            funcs,
        ),
        ExprView::Sub(a, b) => collected(
            *b,
            collected(*a, units, registry, funcs),
            registry,
            funcs,
        ),
        ExprView::Mul(a, b) => collected(
            *b,
            collected(*a, units, registry, funcs),
            registry,
            funcs,
        ),
        ExprView::Div(a, b) => collected(
            *b,
            collected(*a, units, registry, funcs),
            registry,
            funcs,
        ),
        ExprView::Mod(a, b) => collected(
            *b,
            collected(*a, units, registry, funcs),
            registry,
            funcs,
        ),
        ExprView::Apply(a, b) => collected(
            *b,
            collected(*a, units, registry, funcs),
            registry,
            funcs,
        ),
        _ => units,
    }
}

/// Where the sign of a definition stands first, or the number of tokens where none does.
pub open spec fn assign_at(tokens: Seq<TokenView>) -> int
    decreases tokens.len(),
{
    if tokens.len() == 0 || tokens[0] is Assign {
        0
    } else {
        1 + assign_at(tokens.skip(1))
    }
}

/// The words that the tokens are made of, or `None` where something else is among them.
pub open spec fn words_of(tokens: Seq<TokenView>) -> Option<Seq<Seq<char>>>
    decreases tokens.len(),
{
    if tokens.len() == 0 {
        Some(Seq::empty())
    } else {
        match (words_of(tokens.drop_last()), tokens.last()) {
            (Some(words), TokenView::Space) => Some(words),
            (Some(words), TokenView::Ident(word)) => Some(words.push(word)),
            _ => None,
        }
    }
}

/// The expression that all of the tokens make, and the units that durations in it are
/// written in. What is left over is answered with `leftover`.
pub open spec fn expression_of(
    tokens: Seq<TokenView>,
    registry: Seq<UnitDefView>,
    leftover: Seq<char>,
) -> Result<(ExprView, Seq<UnitView>), Seq<char>> {
    let (durations, units) = formed(tokens, registry, Seq::empty());
    match parsed(CONCATENATION as int, combined(durations), registry) {
        Err(e) => Err(e),
        Ok((e, rest)) => if rest.len() > 0 {
            Err(leftover)
        } else {
            Ok((e, units))
        },
    }
}

/// The function of that name, with those parameters: the first word is its name.
pub open spec fn function_of(words: Seq<Seq<char>>, body: ExprView) -> FuncView {
    FuncView {
        name: if words.len() > 0 {
            words[0]
        } else {
            Seq::empty()
        },
        aliases: Seq::empty(),
        args: if words.len() > 0 {
            words.skip(1)
        } else {
            Seq::empty()
        },
        body,
    }
}

/// The function that a definition defines: `lhs` stands before its sign and `rhs` behind.
pub open spec fn definition_of(
    lhs: Seq<TokenView>,
    rhs: Seq<TokenView>,
    registry: Seq<UnitDefView>,
) -> Result<FuncView, Seq<char>> {
    if lhs.len() == 0 {
        Err("Missing function name"@)
    } else {
        match words_of(lhs) {
            None => Err("Invalid function definition: left side must be identifiers"@),
            Some(words) => match expression_of(
                rhs,
                registry,
                "Incomplete expression in function body"@,
            ) {
                Err(e) => Err(e),
                Ok((body, units)) => Ok(function_of(words, body)),
            },
        }
    }
}

/// The functions that do not have that name.
pub open spec fn without(funcs: Seq<FuncView>, name: Seq<char>) -> Seq<FuncView>
    decreases funcs.len(),
{
    if funcs.len() == 0 {
        Seq::empty()
    } else if funcs.last().name == name {
        without(funcs.drop_last(), name)
    } else {
        without(funcs.drop_last(), name).push(funcs.last())
    }
}

/// The functions once `f` is defined, in place of any of the same name.
pub open spec fn with_function(funcs: Seq<FuncView>, f: FuncView) -> Seq<FuncView> {
    without(funcs, f.name).push(f)
}

/// What a line asks for.
#[verifier::ext_equal]
pub enum RequestView {
    Nothing,
    Define(FuncView),
    Compute(ExprView, Seq<UnitView>),
}

/// What a line asks for, or what is wrong with it.
pub open spec fn request_of(
    input: Seq<char>,
    registry: Seq<UnitDefView>,
    funcs: Seq<FuncView>,
) -> Result<RequestView, Seq<char>> {
    match tokens_of(input) {
        Err(e) => Err(e),
        Ok(tokens) => {
            let at = assign_at(tokens);
            if tokens.len() == 0 {
                Ok(RequestView::Nothing)
            } else if at < tokens.len() {
                match definition_of(tokens.take(at), tokens.skip(at + 1), registry) {
                    Err(e) => Err(e),
                    Ok(f) => Ok(RequestView::Define(f)),
                }
            } else {
                match expression_of(tokens, registry, "Incomplete expression"@) {
                    Err(e) => Err(e),
                    Ok((e, units)) => Ok(
                        RequestView::Compute(e, collected(e, units, registry, funcs)),
                    ),
                }
            }
        },
    }
}

/// What a line is evaluated against. A bare number counts in the unit of the line where
/// the line is written in one unit.
pub open spec fn scope_of(
    explicit: Seq<UnitView>,
    now: int,
    last: Option<ValueView>,
    registry: Seq<UnitDefView>,
    funcs: Seq<FuncView>,
) -> ScopeView {
    ScopeView {
        registry,
        funcs,
        last,
        inference: if explicit.len() == 1 {
            Some(explicit[0].factor)
        } else {
            None
        },
        explicit,
        now,
    }
}

/// What a value is to be written like.
pub open spec fn asked(v: ValueView) -> TargetView {
    match request(v) {
        Some(target) => target,
        None => no_target(),
    }
}

/// The answer to a line: its text and its value, or a complaint.
pub type Answer = Result<(Seq<char>, Option<ValueView>), Seq<char>>;

/// The answer to a line that asks for a value, where functions may call each other
/// `limit` deep. It is `None` where evaluating or writing the value comes to nothing.
pub open spec fn value_answer(limit: nat, e: ExprView, scope: ScopeView) -> Option<Answer> {
    match eval_at(limit, e, Map::empty(), scope) {
        None => None,
        Some(Err(e)) => Some(Err(e)),
        Some(Ok(v)) => if is_writable(bare(v), asked(v), scope.explicit, scope.registry) {
            Some(
                Ok(
                    (
                        value_text(bare(v), asked(v), scope.explicit, scope.registry),
                        Some(v),
                    ),
                ),
            )
        } else {
            None
        },
    }
}

/// The answer to a line, and the functions that are defined after it.
pub open spec fn line_at(
    limit: nat,
    now: int,
    input: Seq<char>,
    last: Option<ValueView>,
    registry: Seq<UnitDefView>,
    funcs: Seq<FuncView>,
) -> Option<(Answer, Seq<FuncView>)> {
    match request_of(input, registry, funcs) {
        Err(e) => Some((Err(e), funcs)),
        Ok(RequestView::Nothing) => Some(
            (Ok((Seq::empty(), Some(ValueView::Number(0real)))), funcs),
        ),
        Ok(RequestView::Define(f)) => Some((Ok((Seq::empty(), None)), with_function(funcs, f))),
        Ok(RequestView::Compute(e, explicit)) => match value_answer(
            limit,
            e,
            scope_of(explicit, now, last, registry, funcs),
        ) {
            None => None,
            Some(answer) => Some((answer, funcs)),
        },
    }
}

/// Whether `r` says what `expected` says.
pub open spec fn same_answer(r: Result<(String, Option<Value>), String>, expected: Answer) -> bool {
    match (r, expected) {
        (Ok((text, value)), Ok((s, v))) => text@ == s && match (value, v) {
            (Some(x), Some(y)) => x@ == y,
            (None, None) => true,
            _ => false,
        },
        (Err(x), Err(y)) => x@ == y,
        _ => false,
    }
}

/// The value that a reference to it stands for, if there is one.
pub open spec fn last_view(last_val: Option<Value>) -> Option<ValueView> {
    match last_val {
        Some(v) => Some(v@),
        None => None,
    }
}

/// Whether `word` is one of the names, but for the case of ASCII letters.
fn is_spelling(word: &str, name: &str, aliases: &Vec<String>) -> (r: bool)
    ensures
        r == is_spelled(word@, name@, texts(aliases@)),
{
    if name.eq_ignore_ascii_case(word) {
        return true;
    }
    let ghost names = texts(aliases@);
    let mut i: usize = 0;
    while i < aliases.len()
        invariant
            names == texts(aliases@),
            i <= aliases@.len(),
            forall|j: int| 0 <= j < i ==> !same_word(#[trigger] names[j], word@),
        decreases aliases@.len() - i,
    {
        assert(names[i as int] == aliases@[i as int]@);
        if aliases[i].as_str().eq_ignore_ascii_case(word) {
            return true;
        }
        i = i + 1;
    }
    false
}

/// Whether `word` is a name of a function.
fn names_function(word: &str, funcs: &[FuncDef]) -> (r: bool)
    ensures
        r == is_function_word(word@, funcs_view(funcs@)),
{
    let ghost all = funcs_view(funcs@);
    let mut i: usize = 0;
    while i < funcs.len()
        invariant
            all == funcs_view(funcs@),
            i <= funcs@.len(),
            forall|j: int|
                0 <= j < i ==> !is_spelled(word@, (#[trigger] all[j]).name, all[j].aliases),
        decreases funcs@.len() - i,
    {
        assert(all[i as int] == funcs@[i as int]@);
        if is_spelling(word, funcs[i].name.as_str(), &funcs[i].aliases) {
            return true;
        }
        i = i + 1;
    }
    false
}

/// Whether a unit of that name is among `units`.
fn names_unit(name: &String, units: &Vec<FormatUnit>) -> (r: bool)
    ensures
        r == has_unit_named(units_view(units@), name@),
{
    let ghost all = units_view(units@);
    let mut i: usize = 0;
    while i < units.len()
        invariant
            all == units_view(units@),
            i <= units@.len(),
            forall|j: int| 0 <= j < i ==> (#[trigger] all[j]).name != name@,
        decreases units@.len() - i,
    {
        assert(all[i as int] == units@[i as int]@);
        if units[i].name == *name {
            return true;
        }
        i = i + 1;
    }
    false
}

impl Expr {
    /// Adds the units that words of the expression name to `units`.
    pub fn collect_units(
        &self,
        units: &mut Vec<FormatUnit>,
        registry: &[UnitDef],
        funcs: &[FuncDef],
    )
        ensures
            units_view(final(units)@) == collected(
                self@,
                units_view(old(units)@),
                defs_view(registry@),
                funcs_view(funcs@),
            ),
        decreases self,
    {
        match self {
            Expr::Ident(name) => {
                if let Ok(u) = parse_single_unit(name.as_str(), registry) {
                    if !names_function(name.as_str(), funcs) && !names_unit(&u.name, units) {
                        let ghost before = units@;
                        units.push(u);
                        assert(units_view(units@) =~= units_view(before).push(u@));
                    }
                }
            },
            Expr::UnaryMinus(a) => a.collect_units(units, registry, funcs),
            Expr::To(a, _) => a.collect_units(units, registry, funcs),
            Expr::Add(a, b) | Expr::Sub(a, b) | Expr::Mul(a, b) | Expr::Div(a, b) | Expr::Mod(
                a,
                b,
            ) | Expr::Apply(a, b) => {
                a.collect_units(units, registry, funcs);
                b.collect_units(units, registry, funcs);
            },
            _ => {},
        }
    }
}

/// Where the sign of a definition stands first.
fn find_assign(tokens: &Vec<Token>) -> (r: usize)
    ensures
        r <= tokens@.len(),
        r == assign_at(tokens_view(tokens@)),
{
    let ghost all = tokens_view(tokens@);
    let mut i: usize = 0;
    assert(all.skip(0) == all);
    while i < tokens.len()
        invariant
            all == tokens_view(tokens@),
            i <= tokens@.len(),
            assign_at(all) == i + assign_at(all.skip(i as int)),
        decreases tokens@.len() - i,
    {
        proof {
            assert(all.skip(i as int)[0] == tokens@[i as int]@);
            assert(all.skip(i as int).skip(1) == all.skip(i + 1));
        }
        if matches!(tokens[i], Token::Assign) {
            return i;
        }
        i = i + 1;
    }
    i
}

/// The words that the first `end` tokens are made of.
fn read_words(tokens: &Vec<Token>, end: usize) -> (r: Option<Vec<String>>)
    requires
        end <= tokens@.len(),
    ensures
        match r {
            Some(words) => words_of(tokens_view(tokens@).take(end as int)) == Some(texts(words@)),
            None => words_of(tokens_view(tokens@).take(end as int)) is None,
        },
{
    let ghost all = tokens_view(tokens@);
    let mut words: Vec<String> = Vec::new();
    let mut i: usize = 0;
    assert(texts(words@) =~= Seq::<Seq<char>>::empty());
    while i < end
        invariant
            all == tokens_view(tokens@),
            i <= end <= tokens@.len(),
            words_of(all.take(i as int)) == Some(texts(words@)),
        decreases end - i,
    {
        let ghost done = texts(words@);
        proof {
            assert(all.take(i + 1).drop_last() == all.take(i as int));
            assert(all.take(i + 1).last() == tokens@[i as int]@);
        }
        match &tokens[i] {
            Token::Space => {},
            Token::Ident(name) => {
                words.push(name.clone());
                assert(texts(words@) =~= done.push(name@));
            },
            _ => {
                proof {
                    lemma_no_words(all.take(end as int), i as int);
                }
                return None;
            },
        }
        i = i + 1;
    }
    Some(words)
}

/// A token that is no word stands in the way of reading words.
proof fn lemma_no_words(tokens: Seq<TokenView>, i: int)
    requires
        0 <= i < tokens.len(),
        !(tokens[i] is Space) && !(tokens[i] is Ident),
    ensures
        words_of(tokens) is None,
    decreases tokens.len(),
{
    if i < tokens.len() - 1 {
        lemma_no_words(tokens.drop_last(), i);
    }
}

/// Parses all of the tokens as one expression, and collects the units in it.
pub fn read_expression(tokens: Vec<Token>, registry: &[UnitDef], leftover: &str) -> (r: Result<
    (Expr, Vec<FormatUnit>),
    String,
>)
    ensures
        match (r, expression_of(tokens_view(tokens@), defs_view(registry@), leftover@)) {
            (Ok((e, units)), Ok((f, us))) => e@ == f && units_view(units@) == us,
            (Err(x), Err(y)) => x@ == y,
            _ => false,
        },
{
    let (durations, units) = form_durations(tokens, registry);
    let rows: Vec<Token> = combine_contiguous_durations(durations);
    match parse_expr(rows.as_slice(), registry) {
        Err(e) => Err(e),
        Ok((e, rest)) => if rest.len() > 0 {
            Err(leftover.to_owned())
        } else {
            Ok((e, units))
        },
    }
}

/// The tokens behind the first `n`.
fn tokens_behind(tokens: &Vec<Token>, n: usize) -> (r: Vec<Token>)
    requires
        n <= tokens@.len(),
    ensures
        tokens_view(r@) == tokens_view(tokens@).skip(n as int),
{
    let ghost all = tokens_view(tokens@);
    let mut r: Vec<Token> = Vec::new();
    let mut i: usize = n;
    assert(tokens_view(r@) =~= all.subrange(n as int, n as int));
    while i < tokens.len()
        invariant
            all == tokens_view(tokens@),
            n <= i <= tokens@.len(),
            tokens_view(r@) == all.subrange(n as int, i as int),
        decreases tokens@.len() - i,
    {
        let ghost done = tokens_view(r@);
        r.push(tokens[i].clone());
        proof {
            assert(tokens_view(r@) =~= done.push(tokens@[i as int]@));
            assert(all.subrange(n as int, i + 1) =~= done.push(all[i as int]));
        }
        i = i + 1;
    }
    assert(all.subrange(n as int, i as int) =~= all.skip(n as int));
    r
}

/// The function of that name, with those parameters: the first word is its name.
fn make_function(words: Vec<String>, body: Expr) -> (r: FuncDef)
    ensures
        r@ == function_of(texts(words@), body@),
{
    let ghost all = texts(words@);
    let mut name: String = String::new();
    let mut args: Vec<String> = Vec::new();
    let mut i: usize = 0;
    assert(texts(args@) =~= Seq::<Seq<char>>::empty());
    while i < words.len()
        invariant
            all == texts(words@),
            i <= words@.len(),
            i == 0 ==> name@ == Seq::<char>::empty() && texts(args@) == Seq::<Seq<char>>::empty(),
            i > 0 ==> name@ == all[0] && texts(args@) == all.subrange(1, i as int),
        decreases words@.len() - i,
    {
        let ghost done = texts(args@);
        if i == 0 {
            name = words[i].clone();
            assert(texts(args@) =~= all.subrange(1, 1));
        } else {
            args.push(words[i].clone());
            proof {
                assert(texts(args@) =~= done.push(words@[i as int]@));
                assert(all.subrange(1, i + 1) =~= done.push(all[i as int]));
            }
        }
        i = i + 1;
    }
    let aliases: Vec<String> = Vec::new();
    proof {
        assert(texts(aliases@) =~= Seq::<Seq<char>>::empty());
        if all.len() > 0 {
            assert(all.subrange(1, i as int) =~= all.skip(1));
        }
    }
    FuncDef { name, aliases, args, body }
}

/// Reads a definition whose sign stands at `at`.
fn read_definition(tokens: &Vec<Token>, at: usize, registry: &[UnitDef]) -> (r: Result<
    FuncDef,
    String,
>)
    requires
        at < tokens@.len(),
    ensures
        match (
            r,
            definition_of(
                tokens_view(tokens@).take(at as int),
                tokens_view(tokens@).skip(at + 1),
                defs_view(registry@),
            ),
        ) {
            (Ok(f), Ok(g)) => f@ == g,
            (Err(x), Err(y)) => x@ == y,
            _ => false,
        },
{
    if at == 0 {
        return Err("Missing function name".to_owned());
    }
    let words: Vec<String> = match read_words(tokens, at) {
        Some(words) => words,
        None => {
            return Err(
                "Invalid function definition: left side must be identifiers".to_owned(),
            );
        },
    };
    let len: usize = tokens.len();
    assert(at < len);
    let rhs: Vec<Token> = tokens_behind(tokens, at + 1);
    match read_expression(rhs, registry, "Incomplete expression in function body") {
        Err(e) => Err(e),
        Ok((body, _)) => Ok(make_function(words, body)),
    }
}

/// Defines `f`, in place of any function of the same name.
fn define(funcs: &mut Vec<FuncDef>, f: FuncDef)
    ensures
        funcs_view(final(funcs)@) == with_function(funcs_view(old(funcs)@), f@),
{
    let ghost all = funcs_view(funcs@);
    let mut kept: Vec<FuncDef> = Vec::new();
    let mut i: usize = 0;
    assert(funcs_view(kept@) =~= Seq::<FuncView>::empty());
    while i < funcs.len()
        invariant
            all == funcs_view(funcs@),
            i <= funcs@.len(),
            funcs_view(kept@) == without(all.take(i as int), f.name@),
        decreases funcs@.len() - i,
    {
        let ghost done = funcs_view(kept@);
        proof {
            assert(all.take(i + 1).drop_last() == all.take(i as int));
            assert(all.take(i + 1).last() == funcs@[i as int]@);
        }
        if funcs[i].name != f.name {
            kept.push(funcs[i].clone());
            assert(funcs_view(kept@) =~= done.push(funcs@[i as int]@));
        }
        i = i + 1;
    }
    let ghost done = funcs_view(kept@);
    assert(all.take(i as int) == all);
    kept.push(f);
    assert(funcs_view(kept@) =~= done.push(f@));
    *funcs = kept;
}

/// Evaluates and writes an expression.
fn answer_value(limit: usize, e: &Expr, scope: &Scope) -> (r: Option<
    Result<(String, Option<Value>), String>,
>)
    ensures
        match (r, value_answer(limit as nat, e@, scope@)) {
            (Some(x), Some(y)) => same_answer(x, y),
            (None, None) => true,
            _ => false,
        },
{
    let env: Vec<(String, Value)> = Vec::new();
    assert(env_view(env@) == Map::<Seq<char>, ValueView>::empty());
    match eval_within(limit, e, &env, scope) {
        None => None,
        Some(Err(e)) => Some(Err(e)),
        Some(Ok(result)) => {
            let (val, asked) = result.clone().unwrap();
            let target: ConversionTarget = match asked {
                Some(target) => target,
                None => ConversionTarget::none(),
            };
            if !can_format(&val, &target, scope.explicit_units, scope.registry) {
                return None;
            }
            let text: String = format_value(&val, &target, scope.explicit_units, scope.registry);
            Some(Ok((text, Some(result))))
        },
    }
}

/// Evaluates a line at `now` seconds since midnight, where functions may call each other
/// `limit` deep.
///
/// The answer is the text and the value of an expression. A definition defines a function
/// and has neither. The answer is `None` where functions call each other too deeply, and
/// where a duration would have to be written in a unit of length zero or in units that the
/// registry lacks.
pub fn evaluate_within(
    limit: usize,
    now: u32,
    input: &str,
    last_val: Option<Value>,
    registry: &[UnitDef],
    funcs: &mut Vec<FuncDef>,
) -> (r: Option<Result<(String, Option<Value>), String>>)
    ensures
        match (
            r,
            line_at(
                limit as nat,
                now as int,
                input@,
                last_view(last_val),
                defs_view(registry@),
                funcs_view(old(funcs)@),
            ),
        ) {
            (Some(x), Some((y, after))) => same_answer(x, y) && funcs_view(final(funcs)@) == after,
            (None, None) => funcs_view(final(funcs)@) == funcs_view(old(funcs)@),
            _ => false,
        },
{
    let tokens: Vec<Token> = match tokenize(input) {
        Ok(tokens) => tokens,
        Err(e) => return Some(Err(e)),
    };
    if tokens.len() == 0 {
        return Some(Ok((String::new(), Some(Value::Number(Rational::from_i64(0))))));
    }
    let at: usize = find_assign(&tokens);
    if at < tokens.len() {
        return match read_definition(&tokens, at, registry) {
            Err(e) => Some(Err(e)),
            Ok(f) => {
                define(funcs, f);
                Some(Ok((String::new(), None)))
            },
        };
    }
    let (ast, explicit) = match read_expression(tokens, registry, "Incomplete expression") {
        Ok(read) => read,
        Err(e) => return Some(Err(e)),
    };
    let mut explicit_units: Vec<FormatUnit> = explicit;
    ast.collect_units(&mut explicit_units, registry, funcs.as_slice());
    let inference_factor: Option<&Rational> = if explicit_units.len() == 1 {
        assert(units_view(explicit_units@)[0] == explicit_units@[0]@);
        Some(&explicit_units[0].factor)
    } else {
        None
    };
    let scope: Scope = Scope {
        registry,
        funcs: funcs.as_slice(),
        last_val: last_val.as_ref(),
        inference_factor,
        explicit_units: explicit_units.as_slice(),
        now,
    };
    answer_value(limit, &ast, &scope)
}

/// Letting functions call each other deeper changes no answer that there is.
pub proof fn law_deeper_answers_agree(
    limit: nat,
    deeper: nat,
    now: int,
    input: Seq<char>,
    last: Option<ValueView>,
    registry: Seq<UnitDefView>,
    funcs: Seq<FuncView>,
)
    requires
        limit <= deeper,
        line_at(limit, now, input, last, registry, funcs) is Some,
    ensures
        line_at(deeper, now, input, last, registry, funcs) == line_at(
            limit,
            now,
            input,
            last,
            registry,
            funcs,
        ),
{
    if let Ok(RequestView::Compute(e, explicit)) = request_of(input, registry, funcs) {
        let scope = scope_of(explicit, now, last, registry, funcs);
        law_deeper_agrees(limit, deeper, e, Map::empty(), scope);
    }
}

/// How many seconds a day has.
pub open spec fn day_length() -> int {
    86400
}

/// Whether every time of day gives an answer to the line.
pub open spec fn is_answered(
    input: Seq<char>,
    last: Option<ValueView>,
    registry: Seq<UnitDefView>,
    funcs: Seq<FuncView>,
) -> bool {
    forall|now: int|
        0 <= now < day_length() ==> (#[trigger] line_at(
            usize::MAX as nat,
            now,
            input,
            last,
            registry,
            funcs,
        )) is Some
}

/// Whether `answer` is the answer to the line at a time that the clock showed, and `after`
/// the functions that are defined after it.
pub open spec fn is_answer(
    answer: Result<(String, Option<Value>), String>,
    after: Seq<FuncView>,
    input: Seq<char>,
    last: Option<ValueView>,
    registry: Seq<UnitDefView>,
    funcs: Seq<FuncView>,
) -> bool {
    exists|now: int|
        is_reading(now) && 0 <= now < day_length() && match #[trigger] line_at(
            usize::MAX as nat,
            now,
            input,
            last,
            registry,
            funcs,
        ) {
            Some((expected, f)) => same_answer(answer, expected) && f == after,
            None => false,
        }
}

/// `chrono::Local::now` and `chrono::Timelike::num_seconds_from_midnight`: the seconds
/// since midnight on the local clock. Nothing but its range is said of the reading.
#[verifier::external_body]
pub(crate) fn seconds_since_midnight() -> (r: u32)
    ensures
        r < 86400,
{
    chrono::Local::now().num_seconds_from_midnight()
}

/// Whether `n` is a reading of the clock: what a call of `seconds_since_midnight` gave.
pub closed spec fn is_reading(n: int) -> bool {
    exists|r: u32| n == r && call_ensures(seconds_since_midnight, (), r)
}

/// What a function without parameters gives.
fn called<F: Fn() -> u32>(f: F) -> (r: u32)
    requires
        call_requires(f, ()),
    ensures
        call_ensures(f, (), r),
{
    f()
}

/// Reads the clock.
pub fn read_clock() -> (r: u32)
    ensures
        is_reading(r as int),
        r < day_length(),
{
    called(seconds_since_midnight)
}

/// Evaluates a line at the present time of day, where it has an answer.
pub fn evaluate_now(
    input: &str,
    last_val: Option<Value>,
    registry: &[UnitDef],
    funcs: &mut Vec<FuncDef>,
) -> (r: Option<Result<(String, Option<Value>), String>>)
    ensures
        match r {
            Some(answer) => is_answer(
                answer,
                funcs_view(final(funcs)@),
                input@,
                last_view(last_val),
                defs_view(registry@),
                funcs_view(old(funcs)@),
            ),
            None => funcs_view(final(funcs)@) == funcs_view(old(funcs)@) && !is_answered(
                input@,
                last_view(last_val),
                defs_view(registry@),
                funcs_view(old(funcs)@),
            ) && exists|now: int|
                is_reading(now) && 0 <= now < day_length() && (#[trigger] line_at(
                    usize::MAX as nat,
                    now,
                    input@,
                    last_view(last_val),
                    defs_view(registry@),
                    funcs_view(old(funcs)@),
                )) is None,
        },
{
    let ghost last = last_view(last_val);
    let now: u32 = read_clock();
    let answer: Option<Result<(String, Option<Value>), String>> = evaluate_within(
        usize::MAX,
        now,
        input,
        last_val,
        registry,
        funcs,
    );
    let ghost line = line_at(
        usize::MAX as nat,
        now as int,
        input@,
        last,
        defs_view(registry@),
        funcs_view(old(funcs)@),
    );
    assert(answer is Some <==> line is Some);
    answer
}

/// Evaluates a line at the present time of day.
pub fn evaluate(
    input: &str,
    last_val: Option<Value>,
    registry: &[UnitDef],
    funcs: &mut Vec<FuncDef>,
) -> (r: Result<(String, Option<Value>), String>)
    requires
        is_answered(
            input@,
            last_view(last_val),
            defs_view(registry@),
            funcs_view(old(funcs)@),
        ),
    ensures
        is_answer(
            r,
            funcs_view(final(funcs)@),
            input@,
            last_view(last_val),
            defs_view(registry@),
            funcs_view(old(funcs)@),
        ),
{
    match evaluate_now(input, last_val, registry, funcs) {
        Some(answer) => answer,
        None => Err(String::new()),
    }
}

/// The units and functions that there are, and the value that `_` stands for.
#[derive(Debug)]
pub struct Session {
    pub registry: Vec<UnitDef>,
    pub funcs: Vec<FuncDef>,
    pub last_value: Option<Value>,
}

/// The model of a `Session`.
#[verifier::ext_equal]
pub struct SessionView {
    pub registry: Seq<UnitDefView>,
    pub funcs: Seq<FuncView>,
    pub last: Option<ValueView>,
}

impl View for Session {
    type V = SessionView;

    open spec fn view(&self) -> SessionView {
        SessionView {
            registry: defs_view(self.registry@),
            funcs: funcs_view(self.funcs@),
            last: last_view(self.last_value),
        }
    }
}

/// What is shown of an answer: its text, unless it is empty.
pub open spec fn shown(answer: Answer) -> Option<Seq<char>> {
    match answer {
        Ok((text, value)) => if text.len() > 0 {
            Some(text)
        } else {
            None
        },
        Err(e) => None,
    }
}

/// The session after a line, and what is shown of its answer. The value of a line that is
/// entered becomes the last value; a preview leaves the last value alone. An empty line
/// does nothing. It is `None` where the line has no answer.
pub open spec fn entered_at(
    limit: nat,
    now: int,
    line: Seq<char>,
    s: SessionView,
    preview: bool,
) -> Option<(Option<Seq<char>>, SessionView)> {
    if line.len() == 0 {
        Some((None, s))
    } else {
        match line_at(limit, now, line, s.last, s.registry, s.funcs) {
            None => None,
            Some((answer, funcs)) => {
                let last = match answer {
                    Ok((text, Some(v))) => if preview {
                        s.last
                    } else {
                        Some(v)
                    },
                    _ => s.last,
                };
                Some((shown(answer), SessionView { registry: s.registry, funcs, last }))
            },
        }
    }
}

/// Whether `r` and `after` are what `entered_at` gives.
pub open spec fn same_entry(
    r: Option<Option<String>>,
    after: SessionView,
    before: SessionView,
    expected: Option<(Option<Seq<char>>, SessionView)>,
) -> bool {
    match (r, expected) {
        (Some(Some(text)), Some((Some(t), s))) => text@ == t && after == s,
        (Some(None), Some((None, s))) => after == s,
        (None, None) => after == before,
        _ => false,
    }
}

impl Session {
    /// A session with those units and functions, and no last value.
    pub fn new(registry: Vec<UnitDef>, funcs: Vec<FuncDef>) -> (r: Session)
        ensures
            r@ == (SessionView {
                registry: defs_view(registry@),
                funcs: funcs_view(funcs@),
                last: None,
            }),
    {
        Session { registry, funcs, last_value: None }
    }

    /// Evaluates a line at `now` seconds since midnight, where functions may call each
    /// other `limit` deep, and gives back what is shown of the answer.
    pub fn enter_within(&mut self, limit: usize, now: u32, line: &str, preview: bool) -> (r: Option<
        Option<String>,
    >)
        ensures
            same_entry(
                r,
                final(self)@,
                old(self)@,
                entered_at(limit as nat, now as int, line@, old(self)@, preview),
            ),
    {
        if line.is_empty() {
            return Some(None);
        }
        let last_val: Option<Value> = match &self.last_value {
            Some(v) => Some(v.clone()),
            None => None,
        };
        let answer: Option<Result<(String, Option<Value>), String>> = evaluate_within(
            limit,
            now,
            line,
            last_val,
            self.registry.as_slice(),
            &mut self.funcs,
        );
        match answer {
            None => None,
            Some(Err(_)) => Some(None),
            Some(Ok((text, value))) => {
                if !preview && value.is_some() {
                    self.last_value = value;
                }
                if text.as_str().is_empty() {
                    Some(None)
                } else {
                    Some(Some(text))
                }
            },
        }
    }

    /// Evaluates a line that is still being typed, at the present time of day.
    pub fn preview(&mut self, line: &str) -> (r: Option<Option<String>>)
        ensures
            exists|now: int|
                is_reading(now) && 0 <= now < day_length() && same_entry(
                    r,
                    final(self)@,
                    old(self)@,
                    #[trigger] entered_at(usize::MAX as nat, now, line@, old(self)@, true),
                ),
    {
        let now: u32 = read_clock();
        assert(is_reading(now as int) && (now as int) < day_length());
        self.enter_within(usize::MAX, now, line, true)
    }

    /// Evaluates a line that is entered, at the present time of day.
    pub fn submit(&mut self, line: &str) -> (r: Option<Option<String>>)
        ensures
            exists|now: int|
                is_reading(now) && 0 <= now < day_length() && same_entry(
                    r,
                    final(self)@,
                    old(self)@,
                    #[trigger] entered_at(usize::MAX as nat, now, line@, old(self)@, false),
                ),
    {
        let now: u32 = read_clock();
        assert(is_reading(now as int) && (now as int) < day_length());
        self.enter_within(usize::MAX, now, line, false)
    }
}

} // verus!
