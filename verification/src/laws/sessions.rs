//! Laws of sessions: of lines that are evaluated one after the other.

use crate::eval::{eval_at, ScopeView};
use crate::format::{bare, is_writable, no_target, value_text};
use crate::laws::grammar::word_row;
use crate::lexer::{
    cleaned, first_token, in_class, lexed, space_run, tokens_of, word_token, Class,
};
use crate::parser::{extended, joint_at, parsed, CONCATENATION, PRIMARY};
use crate::session::{
    asked, assign_at, collected, definition_of, entered_at, expression_of, line_at, request_of,
    scope_of, words_of, Answer, RequestView, SessionView,
};
use crate::syntax::{ExprView, FuncView, TokenView, UnitDefView, UnitView, ValueView};
use crate::text::{ascii_lower, ascii_lower_char, is_letter, is_space, lemma_run_is, same_word};
use crate::units::{combined, formed, unit_behind};
use vstd::prelude::*;

verus! {

/// Only a definition changes the functions that there are: neither an expression nor a
/// line that is complained of does.
pub proof fn law_only_definitions_change_functions(
    limit: nat,
    now: int,
    input: Seq<char>,
    last: Option<ValueView>,
    registry: Seq<UnitDefView>,
    funcs: Seq<FuncView>,
)
    ensures
        match line_at(limit, now, input, last, registry, funcs) {
            Some((answer, after)) => after != funcs ==> {
                &&& request_of(input, registry, funcs) matches Ok(RequestView::Define(f))
                &&& answer == Ok::<(Seq<char>, Option<ValueView>), Seq<char>>(
                    (Seq::empty(), None),
                )
            },
            None => true,
        },
{
}

/// A line changes the last value only where it is entered and has a value; the units stay
/// as they are.
pub proof fn law_entering_a_line(
    limit: nat,
    now: int,
    line: Seq<char>,
    s: SessionView,
    preview: bool,
)
    ensures
        match entered_at(limit, now, line, s, preview) {
            Some((text, after)) => {
                &&& after.registry == s.registry
                &&& preview ==> after.last == s.last
                &&& after.last is None ==> s.last is None
            },
            None => true,
        },
{
}

/// An operand is an expression of every level.
pub proof fn lemma_parse_operand(
    level: int,
    tokens: Seq<TokenView>,
    e: ExprView,
    registry: Seq<UnitDefView>,
)
    requires
        CONCATENATION <= level <= PRIMARY,
        tokens.len() > 0,
        parsed(PRIMARY as int, tokens, registry) == Ok::<(ExprView, Seq<TokenView>), Seq<char>>(
            (e, Seq::empty()),
        ),
    ensures
        parsed(level, tokens, registry) == Ok::<(ExprView, Seq<TokenView>), Seq<char>>(
            (e, Seq::empty()),
        ),
    decreases PRIMARY - level,
{
    if level < PRIMARY {
        lemma_parse_operand(level + 1, tokens, e, registry);
        let none = Seq::<TokenView>::empty();
        assert(joint_at(level, none) is None);
        assert(extended(level, e, none, registry) == Ok::<(ExprView, Seq<TokenView>), Seq<char>>(
            (e, none),
        ));
    }
}

/// The line `_` gives back the last value.
pub proof fn law_underscore_recalls(
    limit: nat,
    now: int,
    v: ValueView,
    registry: Seq<UnitDefView>,
    funcs: Seq<FuncView>,
)
    requires
        is_writable(bare(v), asked(v), Seq::empty(), registry),
    ensures
        line_at(limit, now, "_"@, Some(v), registry, funcs) == Some::<(Answer, Seq<FuncView>)>(
            (
                Ok((value_text(bare(v), asked(v), Seq::empty(), registry), Some(v))),
                funcs,
            ),
        ),
{
    reveal_strlit("_");
    let s = "_"@;
    let t = TokenView::Underscore;
    let tokens = seq![t];
    let none = Seq::<TokenView>::empty();
    assert(s.skip(1) =~= Seq::<char>::empty());
    assert(first_token(s) == Ok::<(TokenView, int), Seq<char>>((t, 1)));
    assert(lexed(s.skip(1)) == Ok::<Seq<TokenView>, Seq<char>>(none));
    assert(seq![t] + none =~= tokens);
    assert(lexed(s) == Ok::<Seq<TokenView>, Seq<char>>(tokens));
    assert(tokens.skip(1) =~= none);
    assert(cleaned(Some(t), none) =~= none);
    assert(cleaned(None, tokens) =~= tokens);
    lemma_one_token(t, ExprView::Underscore, registry, "Incomplete expression"@);
    assert(assign_at(tokens.skip(1)) == 0);
    assert(assign_at(tokens) == 1);
}

/// A line of one token is what that token is.
pub proof fn lemma_one_token(
    t: TokenView,
    e: ExprView,
    registry: Seq<UnitDefView>,
    leftover: Seq<char>,
)
    requires
        parsed(PRIMARY as int, seq![t], registry) == Ok::<(ExprView, Seq<TokenView>), Seq<char>>(
            (e, Seq::empty()),
        ),
    ensures
        expression_of(seq![t], registry, leftover) == Ok::<(ExprView, Seq<UnitView>), Seq<char>>(
            (e, Seq::empty()),
        ),
{
    let tokens = seq![t];
    let none = Seq::<TokenView>::empty();
    assert(tokens.skip(1) =~= none);
    assert(space_run(none) == 0);
    assert(unit_behind(tokens, registry) is None);
    assert(formed(none, registry, Seq::empty()) == (none, Seq::<UnitView>::empty()));
    assert(seq![t] + none =~= tokens);
    assert(formed(tokens, registry, Seq::empty()) == (tokens, Seq::<UnitView>::empty()));
    assert(tokens.drop_last() =~= none);
    assert(combined(none) =~= none);
    assert(combined(tokens) =~= tokens);
    lemma_parse_operand(CONCATENATION as int, tokens, e, registry);
}

/// A text in quotes is that text.
pub proof fn law_quoted_text(
    limit: nat,
    now: int,
    quote: char,
    s: Seq<char>,
    last: Option<ValueView>,
    registry: Seq<UnitDefView>,
    funcs: Seq<FuncView>,
)
    requires
        quote == '"' || quote == '\'',
        !s.contains(quote),
    ensures
        line_at(limit, now, seq![quote] + s + seq![quote], last, registry, funcs) == Some::<
            (Answer, Seq<FuncView>),
        >((Ok((s, Some(ValueView::String(s)))), funcs)),
{
    let line = seq![quote] + s + seq![quote];
    let behind = line.skip(1);
    let n = s.len() as int;
    assert forall|i: int| 0 <= i < n implies in_class(
        Class::Until(quote),
        #[trigger] behind[i],
    ) by {
        assert(behind[i] == s[i]);
    }
    assert(behind[n] == quote);
    lemma_run_is(behind, |c: char| in_class(Class::Until(quote), c), n);
    let t = TokenView::String(s);
    let tokens = seq![t];
    let none = Seq::<TokenView>::empty();
    assert(line.subrange(1, n + 1) =~= s);
    assert(line.skip(n + 2) =~= Seq::<char>::empty());
    assert(first_token(line) == Ok::<(TokenView, int), Seq<char>>((t, n + 2)));
    assert(lexed(line.skip(n + 2)) == Ok::<Seq<TokenView>, Seq<char>>(none));
    assert(tokens + none =~= tokens);
    assert(tokens.skip(1) =~= none);
    assert(cleaned(Some(t), none) =~= none);
    assert(cleaned(None, tokens) =~= tokens);
    lemma_one_token(t, ExprView::String(s), registry, "Incomplete expression"@);
    assert(assign_at(none) == 0);
    assert(assign_at(tokens) == 1);
}

/// A line that is entered and has a value makes it the last value; its text is shown where
/// it is not empty, and the functions are those that are defined after it.
pub proof fn law_entered_value_is_kept(
    limit: nat,
    now: int,
    line: Seq<char>,
    s: SessionView,
    preview: bool,
)
    requires
        line.len() > 0,
    ensures
        match (
            line_at(limit, now, line, s.last, s.registry, s.funcs),
            entered_at(limit, now, line, s, preview),
        ) {
            (Some((Ok((text, Some(v))), funcs)), Some((shown, after))) => {
                &&& after.last == if preview {
                    s.last
                } else {
                    Some(v)
                }
                &&& after.funcs == funcs
                &&& text.len() > 0 ==> shown == Some(text)
                &&& text.len() == 0 ==> shown is None
            },
            (Some((Ok((text, None)), funcs)), Some((shown, after))) => after.last == s.last
                && after.funcs == funcs,
            (Some((Err(e), funcs)), Some((shown, after))) => shown is None && after.last == s.last
                && after.funcs == funcs,
            (None, None) => true,
            _ => false,
        },
{
}

/// A spelling of `now` in upper or lower case is made of letters.
proof fn lemma_now_word(word: Seq<char>)
    requires
        same_word(word, "now"@),
    ensures
        word.len() == 3,
        forall|i: int| 0 <= i < 3 ==> is_letter(#[trigger] word[i]) && !is_space(word[i]),
        word_token(word) is Now,
{
    reveal_strlit("now");
    reveal_strlit("as");
    reveal_strlit("to");
    let lower = ascii_lower(word);
    let now = ascii_lower("now"@);
    assert(lower.len() == word.len());
    assert(now.len() == 3);
    assert(ascii_lower("as"@).len() == 2);
    assert(ascii_lower("to"@).len() == 2);
    assert forall|i: int| 0 <= i < 3 implies is_letter(#[trigger] word[i]) && !is_space(
        word[i],
    ) by {
        assert(lower[i] == ascii_lower_char(word[i]));
        assert(now[i] == ascii_lower_char("now"@[i]));
    }
}

/// The line `now`, in upper or lower case, is answered with the duration since midnight.
pub proof fn law_now_is_the_time_of_day(
    limit: nat,
    now: int,
    word: Seq<char>,
    last: Option<ValueView>,
    registry: Seq<UnitDefView>,
    funcs: Seq<FuncView>,
)
    requires
        same_word(word, "now"@),
        is_writable(ValueView::Duration(now as real), no_target(), Seq::empty(), registry),
    ensures
        ({
            let v = ValueView::Duration(now as real);
            line_at(limit, now, word, last, registry, funcs) == Some::<(Answer, Seq<FuncView>)>(
                (Ok((value_text(v, no_target(), Seq::empty(), registry), Some(v))), funcs),
            )
        }),
{
    lemma_now_word(word);
    let t = TokenView::Now;
    let tokens = seq![t];
    let none = Seq::<TokenView>::empty();
    assert(is_letter(word[0]));
    lemma_run_is(word, |c: char| in_class(Class::Word, c), 3);
    assert(word.take(3) =~= word);
    assert(word.skip(3) =~= Seq::<char>::empty());
    assert(first_token(word) == Ok::<(TokenView, int), Seq<char>>((t, 3)));
    assert(lexed(word.skip(3)) == Ok::<Seq<TokenView>, Seq<char>>(none));
    assert(tokens + none =~= tokens);
    assert(tokens.skip(1) =~= none);
    assert(cleaned(Some(t), none) =~= none);
    assert(cleaned(None, tokens) =~= tokens);
    lemma_one_token(t, ExprView::Now, registry, "Incomplete expression"@);
    assert(assign_at(none) == 0);
    assert(assign_at(tokens) == 1);
}

/// Words that ask for a conversion, and `now`, are the same in upper and lower case.
pub proof fn law_keyword_case(a: Seq<char>, b: Seq<char>)
    requires
        same_word(a, b),
    ensures
        word_token(a) is To <==> word_token(b) is To,
        word_token(a) is As <==> word_token(b) is As,
        word_token(a) is Now <==> word_token(b) is Now,
        word_token(a) is To || word_token(a) is As || word_token(a) is Now || word_token(a)
            == TokenView::Ident(a),
{
}

/// The words of two rows are those of the first and then those of the second.
proof fn lemma_words_of_rows(a: Seq<TokenView>, b: Seq<TokenView>)
    ensures
        words_of(a) is Some && words_of(b) is Some ==> words_of(a + b) == Some(
            words_of(a)->0 + words_of(b)->0,
        ),
    decreases b.len(),
{
    if b.len() == 0 {
        assert(a + b =~= a);
        if words_of(a) is Some {
            assert(words_of(a)->0 + Seq::<Seq<char>>::empty() =~= words_of(a)->0);
        }
    } else {
        lemma_words_of_rows(a, b.drop_last());
        assert((a + b).drop_last() =~= a + b.drop_last());
        assert((a + b).last() == b.last());
        if words_of(a) is Some && words_of(b) is Some {
            let x = words_of(a)->0;
            let y = words_of(b.drop_last())->0;
            if let TokenView::Ident(w) = b.last() {
                assert((x + y).push(w) =~= x + y.push(w));
            }
        }
    }
}

/// The words of a row of words are those words.
proof fn lemma_words_of_word_row(words: Seq<Seq<char>>)
    ensures
        words_of(word_row(words)) == Some(words),
    decreases words.len(),
{
    reveal_with_fuel(words_of, 3);
    let none = Seq::<TokenView>::empty();
    if words.len() == 0 {
        assert(words =~= Seq::<Seq<char>>::empty());
    } else {
        let w = words[0];
        let one = seq![TokenView::Ident(w)];
        assert(one.drop_last() =~= none);
        assert(Seq::<Seq<char>>::empty().push(w) =~= seq![w]);
        assert(words_of(one) == Some(seq![w]));
        if words.len() == 1 {
            assert(words =~= seq![w]);
        } else {
            let two = seq![TokenView::Ident(w), TokenView::Space];
            assert(two.drop_last() =~= one);
            lemma_words_of_word_row(words.skip(1));
            lemma_words_of_rows(two, word_row(words.skip(1)));
            assert(seq![w] + words.skip(1) =~= words);
        }
    }
}

/// A definition names the function by its first word and the parameters, in their order, by
/// the others; what stands behind its sign is the body.
pub proof fn law_definition(
    words: Seq<Seq<char>>,
    rhs: Seq<TokenView>,
    body: ExprView,
    units: Seq<UnitView>,
    registry: Seq<UnitDefView>,
)
    requires
        words.len() > 0,
        expression_of(rhs, registry, "Incomplete expression in function body"@) == Ok::<
            (ExprView, Seq<UnitView>),
            Seq<char>,
        >((body, units)),
    ensures
        definition_of(word_row(words), rhs, registry) matches Ok(f) && {
            &&& f.name == words[0]
            &&& f.args.len() == words.len() - 1
            &&& forall|i: int| 0 <= i < f.args.len() ==> #[trigger] f.args[i] == words[i + 1]
            &&& f.aliases.len() == 0
            &&& f.body == body
        },
{
    lemma_words_of_word_row(words);
    assert(word_row(words).len() > 0);
}

/// Where the first sign of a definition stands behind `lhs`.
proof fn lemma_assign_at(lhs: Seq<TokenView>, rhs: Seq<TokenView>)
    requires
        forall|i: int| 0 <= i < lhs.len() ==> !((#[trigger] lhs[i]) is Assign),
    ensures
        assign_at(lhs + seq![TokenView::Assign] + rhs) == lhs.len(),
        assign_at(lhs) == lhs.len(),
    decreases lhs.len(),
{
    let all = lhs + seq![TokenView::Assign] + rhs;
    if lhs.len() > 0 {
        let rest = lhs.skip(1);
        assert(all[0] == lhs[0]);
        assert forall|i: int| 0 <= i < rest.len() implies !((#[trigger] rest[i]) is Assign) by {
            assert(rest[i] == lhs[i + 1]);
        }
        lemma_assign_at(rest, rhs);
        assert(all.skip(1) =~= rest + seq![TokenView::Assign] + rhs);
    } else {
        assert(all[0] is Assign);
    }
}

/// A line is a definition exactly where the sign of one stands in it: what stands before
/// the first such sign is defined as what stands behind. Without tokens it asks for
/// nothing, and otherwise for the value of its expression, with the units of its durations
/// and then those of its words.
pub proof fn law_what_a_line_asks_for(
    input: Seq<char>,
    lhs: Seq<TokenView>,
    rhs: Seq<TokenView>,
    registry: Seq<UnitDefView>,
    funcs: Seq<FuncView>,
)
    requires
        forall|i: int| 0 <= i < lhs.len() ==> !((#[trigger] lhs[i]) is Assign),
    ensures
        tokens_of(input) == Ok::<Seq<TokenView>, Seq<char>>(lhs + seq![TokenView::Assign] + rhs)
            ==> match definition_of(lhs, rhs, registry) {
            Ok(f) => request_of(input, registry, funcs) == Ok::<RequestView, Seq<char>>(
                RequestView::Define(f),
            ),
            Err(e) => request_of(input, registry, funcs) == Err::<RequestView, Seq<char>>(e),
        },
        tokens_of(input) == Ok::<Seq<TokenView>, Seq<char>>(lhs) && lhs.len() > 0
            ==> match expression_of(lhs, registry, "Incomplete expression"@) {
            Ok((e, units)) => request_of(input, registry, funcs) == Ok::<RequestView, Seq<char>>(
                RequestView::Compute(e, collected(e, units, registry, funcs)),
            ),
            Err(e) => request_of(input, registry, funcs) == Err::<RequestView, Seq<char>>(e),
        },
        tokens_of(input) == Ok::<Seq<TokenView>, Seq<char>>(lhs) && lhs.len() == 0 ==> request_of(
            input,
            registry,
            funcs,
        ) == Ok::<RequestView, Seq<char>>(RequestView::Nothing),
{
    let all = lhs + seq![TokenView::Assign] + rhs;
    lemma_assign_at(lhs, rhs);
    assert(all.take(lhs.len() as int) =~= lhs);
    assert(all.skip(lhs.len() as int + 1) =~= rhs);
}

/// A line that asks for a value is answered with it, written as it is asked for. It is
/// computed with the units, functions and last value that there are at that time of day;
/// a bare number counts in the unit of the line where there is exactly one.
pub proof fn law_line_is_evaluated(
    limit: nat,
    now: int,
    input: Seq<char>,
    last: Option<ValueView>,
    e: ExprView,
    scope: ScopeView,
)
    requires
        request_of(input, scope.registry, scope.funcs) == Ok::<RequestView, Seq<char>>(
            RequestView::Compute(e, scope.explicit),
        ),
        scope.last == last,
        scope.now == now,
        scope.inference is Some <==> scope.explicit.len() == 1,
        scope.inference is Some ==> scope.inference->0 == scope.explicit[0].factor,
    ensures
        match (
            eval_at(limit, e, Map::empty(), scope),
            line_at(limit, now, input, last, scope.registry, scope.funcs),
        ) {
            (Some(Ok(v)), Some((Ok((text, value)), after))) => {
                &&& value == Some(v)
                &&& text == value_text(bare(v), asked(v), scope.explicit, scope.registry)
                &&& after == scope.funcs
            },
            (Some(Ok(v)), None) => !is_writable(
                bare(v),
                asked(v),
                scope.explicit,
                scope.registry,
            ),
            (Some(Err(x)), Some((Err(y), after))) => x == y && after == scope.funcs,
            (None, None) => true,
            _ => false,
        },
{
    let same = scope_of(scope.explicit, now, last, scope.registry, scope.funcs);
    assert(same == scope);
}

/// Nothing comes of entering nothing.
pub proof fn law_nothing_entered(limit: nat, now: int, s: SessionView, preview: bool)
    ensures
        entered_at(limit, now, Seq::empty(), s, preview) == Some((None::<Seq<char>>, s)),
{
}

/// Something else among words makes them no row of words.
proof fn lemma_no_words(tokens: Seq<TokenView>, i: int)
    requires
        0 <= i < tokens.len(),
        !(tokens[i] is Ident) && !(tokens[i] is Space),
    ensures
        words_of(tokens) is None,
    decreases tokens.len(),
{
    if i < tokens.len() - 1 {
        lemma_no_words(tokens.drop_last(), i);
    }
}

/// A definition needs a name before its sign, only words there, and a whole expression
/// behind it.
pub proof fn law_wrong_definitions(
    lhs: Seq<TokenView>,
    rhs: Seq<TokenView>,
    i: int,
    registry: Seq<UnitDefView>,
)
    ensures
        lhs.len() == 0 ==> definition_of(lhs, rhs, registry) == Err::<FuncView, Seq<char>>(
            "Missing function name"@,
        ),
        0 <= i < lhs.len() && !(lhs[i] is Ident) && !(lhs[i] is Space) ==> definition_of(
            lhs,
            rhs,
            registry,
        ) == Err::<FuncView, Seq<char>>(
            "Invalid function definition: left side must be identifiers"@,
        ),
        definition_of(lhs, rhs, registry) is Ok ==> expression_of(
            rhs,
            registry,
            "Incomplete expression in function body"@,
        ) is Ok,
{
    if 0 <= i < lhs.len() && !(lhs[i] is Ident) && !(lhs[i] is Space) {
        lemma_no_words(lhs, i);
    }
}

/// All tokens have to be of the expression: durations are formed and added up, what is then
/// read is the expression, and where something is left over there is none.
pub proof fn law_nothing_is_left_over(
    tokens: Seq<TokenView>,
    registry: Seq<UnitDefView>,
    leftover: Seq<char>,
)
    ensures
        ({
            let (durations, units) = formed(tokens, registry, Seq::empty());
            match (
                parsed(CONCATENATION as int, combined(durations), registry),
                expression_of(tokens, registry, leftover),
            ) {
                (Ok((e, rest)), Ok((body, seen))) => rest.len() == 0 && e == body && seen
                    == units,
                (Ok((e, rest)), Err(complaint)) => rest.len() > 0 && complaint == leftover,
                (Err(x), Err(y)) => x == y,
                _ => false,
            }
        }),
{
}

/// A line without tokens is answered with no text and the number zero, and changes no
/// function.
pub proof fn law_blank_line(
    limit: nat,
    now: int,
    input: Seq<char>,
    last: Option<ValueView>,
    registry: Seq<UnitDefView>,
    funcs: Seq<FuncView>,
)
    requires
        tokens_of(input) == Ok::<Seq<TokenView>, Seq<char>>(Seq::empty()),
    ensures
        line_at(limit, now, input, last, registry, funcs) == Some::<(Answer, Seq<FuncView>)>(
            (Ok((Seq::empty(), Some(ValueView::Number(0real)))), funcs),
        ),
{
}

/// Entering `now`, in upper or lower case, shows the time of day as a duration, and keeps it
/// as the last value; two readings of the clock that differ are kept as two values.
pub proof fn law_now_is_entered(
    limit: nat,
    now: int,
    later: int,
    word: Seq<char>,
    s: SessionView,
)
    requires
        same_word(word, "now"@),
        is_writable(ValueView::Duration(now as real), no_target(), Seq::empty(), s.registry),
        is_writable(ValueView::Duration(later as real), no_target(), Seq::empty(), s.registry),
    ensures
        ({
            let (text, after) = entered_at(limit, now, word, s, false)->0;
            let (other, behind) = entered_at(limit, later, word, s, false)->0;
            let v = ValueView::Duration(now as real);
            &&& entered_at(limit, now, word, s, false) is Some
            &&& after.last == Some(v)
            &&& text is Some ==> text->0 == value_text(v, no_target(), Seq::empty(), s.registry)
            &&& entered_at(limit, later, word, s, false) is Some
            &&& now != later ==> after.last != behind.last
        }),
{
    lemma_now_word(word);
    law_now_is_the_time_of_day(limit, now, word, s.last, s.registry, s.funcs);
    law_now_is_the_time_of_day(limit, later, word, s.last, s.registry, s.funcs);
}

} // verus!
