//! Laws of lines of input and their tokens.

use crate::eval::size;
use crate::lexer::{
    class_run, cleaned, ends_operand, first_token, in_class, lemma_first_token, lemma_space_run,
    lemma_space_run_is, lexed, sign_token, space_run, starts_operand, tokens_of, Class,
};
use crate::number::is_digit;
use crate::parser::{joined, Operator};
use crate::session::{collected, has_unit_named, is_function_word};
use crate::syntax::{ExprView, FuncView, TargetView, TokenView, UnitDefView, UnitView};
use crate::text::{ascii_lower, is_letter, is_space, lemma_run, lemma_run_is, run, trim_start};
use crate::units::{combined, find_unit, formed, unit_behind, with_unit};
use vstd::prelude::*;

verus! {

/// The first token of a text is a space exactly where the text starts with one.
proof fn lemma_first_is_space(s: Seq<char>)
    requires
        s.len() > 0,
    ensures
        match first_token(s) {
            Ok((t, n)) => t is Space <==> is_space(s[0]),
            Err(e) => !is_space(s[0]),
        },
{
}

/// The white space that a text starts with is the run of its first token.
proof fn lemma_leading_run(s: Seq<char>)
    ensures
        class_run(s, Class::Space) == run(s, |c: char| is_space(c)),
{
    let p = |c: char| in_class(Class::Space, c);
    lemma_run(s, p);
    let n = run(s, p);
    assert forall|i: int| 0 <= i < n implies is_space(#[trigger] s[i]) by {
        assert(p(s[i]));
    }
    lemma_run_is(s, |c: char| is_space(c), n);
}

/// White space before a line does not matter.
pub proof fn law_leading_space_is_skipped(s: Seq<char>)
    ensures
        tokens_of(trim_start(s)) == tokens_of(s),
{
    lemma_leading_run(s);
    lemma_run(s, |c: char| is_space(c));
    let n = run(s, |c: char| is_space(c));
    let rest = s.skip(n);
    if n == 0 {
        assert(rest =~= s);
    } else {
        assert(is_space(s[0]));
        lemma_first_token(s);
        if let Ok(tokens) = lexed(rest) {
            let all = seq![TokenView::Space] + tokens;
            if rest.len() > 0 {
                assert(rest[0] == s[n]);
                lemma_first_is_space(rest);
                assert(tokens.len() > 0 && !(tokens[0] is Space));
            }
            lemma_space_run_is(all, 1);
            assert(all.skip(1) =~= tokens);
            assert(lexed(s) == Ok::<Seq<TokenView>, Seq<char>>(all));
            assert(cleaned(None, all) == cleaned(Some(TokenView::Space), tokens));
            if tokens.len() > 0 {
                assert(cleaned(None, tokens) == cleaned(Some(TokenView::Space), tokens));
            } else {
                assert(cleaned(None, tokens) =~= cleaned(Some(TokenView::Space), tokens));
            }
        }
    }
}

/// Whether each space among tokens that stand behind `before` has an operand that ends on
/// its left and one that starts on its right.
pub open spec fn spaces_part_operands(before: Option<TokenView>, tokens: Seq<TokenView>) -> bool {
    forall|i: int|
        0 <= i < tokens.len() && (#[trigger] tokens[i]) is Space ==> {
            &&& i + 1 < tokens.len()
            &&& starts_operand(tokens[i + 1])
            &&& if i == 0 {
                before is Some && ends_operand(before->0)
            } else {
                ends_operand(tokens[i - 1])
            }
        }
}

/// Tokens behind one that they are put behind.
proof fn lemma_spaces_behind(before: Option<TokenView>, t: TokenView, rest: Seq<TokenView>)
    requires
        spaces_part_operands(Some(t), rest),
        t is Space ==> before is Some && ends_operand(before->0) && rest.len() > 0
            && starts_operand(rest[0]),
    ensures
        spaces_part_operands(before, seq![t] + rest),
{
    let all = seq![t] + rest;
    assert forall|i: int| 0 <= i < all.len() && (#[trigger] all[i]) is Space implies {
        &&& i + 1 < all.len()
        &&& starts_operand(all[i + 1])
        &&& if i == 0 {
            before is Some && ends_operand(before->0)
        } else {
            ends_operand(all[i - 1])
        }
    } by {
        if i > 0 {
            assert(all[i] == rest[i - 1]);
            assert(rest[i - 1] is Space);
            assert(all[i + 1] == rest[i]);
            if i > 1 {
                assert(all[i - 1] == rest[i - 2]);
            }
        } else {
            assert(all[1] == rest[0]);
        }
    }
}

/// The spaces that are left in a line part operands.
proof fn lemma_cleaned(before: Option<TokenView>, tokens: Seq<TokenView>)
    ensures
        spaces_part_operands(before, cleaned(before, tokens)),
        tokens.len() > 0 && !(tokens[0] is Space) ==> cleaned(before, tokens).len() > 0
            && cleaned(before, tokens)[0] == tokens[0],
    decreases tokens.len(),
{
    if tokens.len() > 0 {
        if tokens[0] is Space {
            lemma_space_run(tokens);
            let rest = tokens.skip(space_run(tokens));
            lemma_cleaned(Some(TokenView::Space), rest);
            let inner = cleaned(Some(TokenView::Space), rest);
            if rest.len() > 0 {
                assert(rest[0] == tokens[space_run(tokens)]);
            }
            if before is Some && ends_operand(before->0) && rest.len() > 0 && starts_operand(
                rest[0],
            ) {
                lemma_spaces_behind(before, TokenView::Space, inner);
            } else {
                assert forall|i: int|
                    0 <= i < inner.len() && (#[trigger] inner[i]) is Space implies i > 0 by {
                    if i == 0 {
                        assert(ends_operand(TokenView::Space));
                    }
                }
            }
        } else {
            lemma_cleaned(Some(tokens[0]), tokens.skip(1));
            lemma_spaces_behind(before, tokens[0], cleaned(Some(tokens[0]), tokens.skip(1)));
        }
    }
}

/// Tokens whose spaces part operands stay as they are.
pub proof fn lemma_cleaned_is_same(before: Option<TokenView>, tokens: Seq<TokenView>)
    requires
        spaces_part_operands(before, tokens),
    ensures
        cleaned(before, tokens) == tokens,
    decreases tokens.len(),
{
    if tokens.len() > 0 {
        let rest = tokens.skip(1);
        assert forall|i: int| 0 <= i < rest.len() && (#[trigger] rest[i]) is Space implies {
            &&& i + 1 < rest.len()
            &&& starts_operand(rest[i + 1])
            &&& if i == 0 {
                ends_operand(tokens[0])
            } else {
                ends_operand(rest[i - 1])
            }
        } by {
            assert(rest[i] == tokens[i + 1]);
            assert(rest[i + 1] == tokens[i + 2]);
            if i > 0 {
                assert(rest[i - 1] == tokens[i]);
            }
        }
        assert(tokens =~= seq![tokens[0]] + rest);
        if tokens[0] is Space {
            assert(starts_operand(tokens[1]));
            lemma_space_run_is(tokens, 1);
            assert(rest[0] == tokens[1]);
        }
        lemma_cleaned_is_same(Some(tokens[0]), rest);
    } else {
        assert(cleaned(before, tokens) =~= tokens);
    }
}

/// Every space that is left in a line has an operand on either side: none stands at the
/// start or the end, beside an operator, or beside another space.
pub proof fn law_spaces_part_operands(s: Seq<char>)
    ensures
        match tokens_of(s) {
            Ok(tokens) => spaces_part_operands(None, tokens),
            Err(e) => true,
        },
{
    if let Ok(tokens) = lexed(s) {
        lemma_cleaned(None, tokens);
    }
}

/// Cleaning a second time changes nothing.
pub proof fn law_cleaning_twice(tokens: Seq<TokenView>)
    ensures
        cleaned(None, cleaned(None, tokens)) == cleaned(None, tokens),
{
    lemma_cleaned(None, tokens);
    lemma_cleaned_is_same(None, cleaned(None, tokens));
}

/// The seconds of all durations among the tokens.
pub open spec fn total_seconds(tokens: Seq<TokenView>) -> real
    decreases tokens.len(),
{
    if tokens.len() == 0 {
        0real
    } else {
        total_seconds(tokens.drop_last()) + match tokens.last() {
            TokenView::Duration(x) => x,
            _ => 0real,
        }
    }
}

/// The tokens that are no durations, in their order.
pub open spec fn other_tokens(tokens: Seq<TokenView>) -> Seq<TokenView>
    decreases tokens.len(),
{
    if tokens.len() == 0 {
        Seq::empty()
    } else if tokens.last() is Duration {
        other_tokens(tokens.drop_last())
    } else {
        other_tokens(tokens.drop_last()).push(tokens.last())
    }
}

/// Adding up durations that stand side by side leaves no two of them side by side, and
/// changes neither the seconds of all of them nor the other tokens.
pub proof fn law_combining_adds_up(tokens: Seq<TokenView>)
    ensures
        total_seconds(combined(tokens)) == total_seconds(tokens),
        other_tokens(combined(tokens)) == other_tokens(tokens),
        forall|i: int|
            0 <= i < combined(tokens).len() - 1 ==> !((#[trigger] combined(tokens)[i]) is Duration
                && combined(tokens)[i + 1] is Duration),
    decreases tokens.len(),
{
    if tokens.len() > 0 {
        let before = tokens.drop_last();
        law_combining_adds_up(before);
        let done = combined(before);
        let all = combined(tokens);
        let t = tokens.last();
        if t is Duration && done.len() > 0 && done.last() is Duration {
            assert(all.drop_last() =~= done.drop_last());
            assert forall|i: int| 0 <= i < all.len() - 1 implies !((#[trigger] all[i]) is Duration
                && all[i + 1] is Duration) by {
                assert(all[i] == done[i]);
                assert(done[i + 1] is Duration == (all[i + 1] is Duration));
            }
        } else {
            assert(all.drop_last() =~= done);
            assert forall|i: int| 0 <= i < all.len() - 1 implies !((#[trigger] all[i]) is Duration
                && all[i + 1] is Duration) by {
                assert(all[i] == done[i]);
                if i + 1 < done.len() {
                    assert(all[i + 1] == done[i + 1]);
                }
            }
        }
    }
}

/// How much white space the text starts with.
pub open spec fn space_length(s: Seq<char>) -> int {
    run(s, |c: char| is_space(c))
}

/// Whether `c` starts a quoted text.
pub open spec fn is_quote(c: char) -> bool {
    c == '"' || c == '\''
}

/// The quote that is open behind `c`, where `quote` is open before it.
pub open spec fn quote_behind(quote: Option<char>, c: char) -> Option<char> {
    match quote {
        Some(q) => if c == q {
            None
        } else {
            quote
        },
        None => if is_quote(c) {
            Some(c)
        } else {
            None
        },
    }
}

/// The quote that is open at the end of the text, where `quote` is open before it.
pub open spec fn open_quote(s: Seq<char>, quote: Option<char>) -> Option<char>
    decreases s.len(),
{
    if s.len() == 0 {
        quote
    } else {
        open_quote(s.skip(1), quote_behind(quote, s[0]))
    }
}

/// The text, before which `quote` is open, with all white space outside of quotes made
/// single spaces, and none left at the end.
pub open spec fn squeezed(s: Seq<char>, quote: Option<char>) -> Seq<char>
    decreases s.len(),
{
    if s.len() == 0 {
        Seq::empty()
    } else if quote is None && is_space(s[0]) {
        let n = space_length(s);
        proof {
            lemma_space_length(s);
        }
        if n == s.len() {
            Seq::empty()
        } else {
            seq![' '] + squeezed(s.skip(n), None)
        }
    } else {
        seq![s[0]] + squeezed(s.skip(1), quote_behind(quote, s[0]))
    }
}

/// What is left of a line where white space outside of quotes is taken for what it means:
/// none is left at the start and the end, and single spaces elsewhere.
pub open spec fn essence(s: Seq<char>) -> Seq<char> {
    squeezed(trim_start(s), None)
}

/// White space reaches up to the first character that is none.
pub proof fn lemma_space_length(s: Seq<char>)
    ensures
        0 <= space_length(s) <= s.len(),
        forall|i: int| 0 <= i < space_length(s) ==> is_space(#[trigger] s[i]),
        space_length(s) < s.len() ==> !is_space(s[space_length(s)]),
        s.len() > 0 && is_space(s[0]) ==> space_length(s) > 0,
{
    lemma_run(s, |c: char| is_space(c));
}

/// White space up to a character that is none is the run.
proof fn lemma_space_length_is(s: Seq<char>, n: int)
    requires
        0 <= n <= s.len(),
        forall|i: int| 0 <= i < n ==> is_space(#[trigger] s[i]),
        n < s.len() ==> !is_space(s[n]),
    ensures
        space_length(s) == n,
{
    lemma_run_is(s, |c: char| is_space(c), n);
}

/// What starts with no white space, starts as it did.
proof fn lemma_squeezed_first(s: Seq<char>)
    ensures
        s.len() > 0 && !is_space(s[0]) ==> squeezed(s, None).len() > 0 && squeezed(s, None)[0]
            == s[0],
        s.len() > 0 && is_space(s[0]) && squeezed(s, None).len() > 0 ==> squeezed(s, None)[0]
            == ' ',
        s.len() == 0 ==> squeezed(s, None).len() == 0,
{
}

/// Characters that are neither white space nor quotes stay.
proof fn lemma_squeezed_plain(s: Seq<char>, n: int)
    requires
        0 <= n <= s.len(),
        forall|i: int| 0 <= i < n ==> !is_space(#[trigger] s[i]) && !is_quote(s[i]),
    ensures
        squeezed(s, None) == s.take(n) + squeezed(s.skip(n), None),
    decreases n,
{
    if n == 0 {
        assert(s.skip(0) =~= s);
        assert(s.take(0) + squeezed(s, None) =~= squeezed(s, None));
    } else {
        let rest = s.skip(1);
        assert(!is_space(s[0]) && !is_quote(s[0]));
        assert forall|i: int| 0 <= i < n - 1 implies !is_space(#[trigger] rest[i]) && !is_quote(
            rest[i],
        ) by {
            assert(rest[i] == s[i + 1]);
        }
        lemma_squeezed_plain(rest, n - 1);
        assert(rest.skip(n - 1) =~= s.skip(n));
        assert(seq![s[0]] + (rest.take(n - 1) + squeezed(s.skip(n), None)) =~= s.take(n)
            + squeezed(s.skip(n), None));
    }
}

/// What stands in quotes stays, up to the closing quote or the end.
proof fn lemma_squeezed_quoted(s: Seq<char>, q: char, n: int)
    requires
        0 <= n <= s.len(),
        forall|i: int| 0 <= i < n ==> #[trigger] s[i] != q,
        n < s.len() ==> s[n] == q,
    ensures
        n == s.len() ==> squeezed(s, Some(q)) == s,
        n < s.len() ==> squeezed(s, Some(q)) == s.take(n + 1) + squeezed(s.skip(n + 1), None),
    decreases n,
{
    if s.len() == 0 {
        assert(squeezed(s, Some(q)) =~= s);
    } else if n == 0 {
        assert(s.take(1) =~= seq![s[0]]);
    } else {
        let rest = s.skip(1);
        assert(s[0] != q);
        assert forall|i: int| 0 <= i < n - 1 implies #[trigger] rest[i] != q by {
            assert(rest[i] == s[i + 1]);
        }
        lemma_squeezed_quoted(rest, q, n - 1);
        if n == s.len() {
            assert(seq![s[0]] + rest =~= s);
        } else {
            assert(rest.skip(n) =~= s.skip(n + 1));
            assert(seq![s[0]] + (rest.take(n) + squeezed(s.skip(n + 1), None)) =~= s.take(n + 1)
                + squeezed(s.skip(n + 1), None));
        }
    }
}

/// Whether two texts lex alike, but for a space at the end of the first.
pub open spec fn lex_alike(
    a: Result<Seq<TokenView>, Seq<char>>,
    b: Result<Seq<TokenView>, Seq<char>>,
) -> bool {
    match (a, b) {
        (Ok(x), Ok(y)) => x == y || x == y.push(TokenView::Space),
        (Err(x), Err(y)) => x == y,
        _ => false,
    }
}

/// A token before texts that lex alike.
proof fn lemma_lex_alike_behind(
    s: Seq<char>,
    n: int,
    z: Seq<char>,
    k: int,
    t: TokenView,
)
    requires
        s.len() > 0,
        z.len() > 0,
        first_token(s) == Ok::<(TokenView, int), Seq<char>>((t, n)),
        first_token(z) == Ok::<(TokenView, int), Seq<char>>((t, k)),
        lex_alike(lexed(s.skip(n)), lexed(z.skip(k))),
    ensures
        lex_alike(lexed(s), lexed(z)),
{
    if let (Ok(x), Ok(y)) = (lexed(s.skip(n)), lexed(z.skip(k))) {
        if x == y.push(TokenView::Space) {
            assert(seq![t] + y.push(TokenView::Space) =~= (seq![t] + y).push(TokenView::Space));
        }
    }
}

/// The characters of a number or a word are neither white space nor quotes.
proof fn lemma_class_is_plain(class: Class, c: char)
    requires
        class is Number || class is Word,
        in_class(class, c),
    ensures
        !is_space(c),
        !is_quote(c),
{
}

/// A text lexes as it does with its white space squeezed.
proof fn lemma_squeezed_lexes_alike(s: Seq<char>)
    ensures
        lex_alike(lexed(s), lexed(squeezed(s, None))),
    decreases s.len(), 1int,
{
    if s.len() > 0 {
        let z = squeezed(s, None);
        let c = s[0];
        lemma_first_token(s);
        lemma_squeezed_first(s);
        if is_space(c) {
            lemma_lex_space_alike(s);
        } else if is_quote(c) {
            lemma_lex_quote_alike(s);
        } else if sign_token(c) is Some {
            lemma_squeezed_plain(s, 1);
            lemma_squeezed_lexes_alike(s.skip(1));
            assert(z.skip(1) =~= squeezed(s.skip(1), None));
            lemma_lex_alike_behind(s, 1, z, 1, sign_token(c)->0);
        } else if c == ':' {
            lemma_squeezed_plain(s, 1);
            lemma_squeezed_first(s.skip(1));
            if s.len() > 1 {
                assert(s.skip(1)[0] == s[1]);
            }
            if z.len() > 1 {
                assert(z[1] == squeezed(s.skip(1), None)[0]);
            }
            if s.len() > 1 && s[1] == '=' {
                lemma_squeezed_plain(s, 2);
                lemma_squeezed_lexes_alike(s.skip(2));
                assert(z.skip(2) =~= squeezed(s.skip(2), None));
                lemma_lex_alike_behind(s, 2, z, 2, TokenView::Assign);
            } else {
                assert(first_token(z) == first_token(s));
            }
        } else if is_digit(c) || c == '.' {
            lemma_lex_run_alike(s, Class::Number);
        } else if is_letter(c) {
            lemma_lex_run_alike(s, Class::Word);
        } else {
            assert(first_token(z) == first_token(s));
        }
    } else {
        assert(squeezed(s, None) =~= s);
    }
}

/// `lemma_squeezed_lexes_alike` for a text that starts with white space.
proof fn lemma_lex_space_alike(s: Seq<char>)
    requires
        s.len() > 0,
        is_space(s[0]),
    ensures
        lex_alike(lexed(s), lexed(squeezed(s, None))),
    decreases s.len(), 0int,
{
    lemma_leading_run(s);
    lemma_space_length(s);
    let n = space_length(s);
    let z = squeezed(s, None);
    let rest = s.skip(n);
    let tail = squeezed(rest, None);
    lemma_squeezed_lexes_alike(rest);
    lemma_squeezed_first(rest);
    if n == s.len() {
        assert(rest =~= Seq::<char>::empty());
        let none = Seq::<TokenView>::empty();
        assert(lexed(rest) == Ok::<Seq<TokenView>, Seq<char>>(none));
        assert(lexed(s) == Ok::<Seq<TokenView>, Seq<char>>(seq![TokenView::Space] + none));
        assert(seq![TokenView::Space] + none =~= none.push(TokenView::Space));
    } else {
        assert(rest[0] == s[n]);
        assert(z[1] == tail[0]);
        lemma_space_length_is(z, 1);
        lemma_leading_run(z);
        assert(z.skip(1) =~= tail);
        lemma_lex_alike_behind(s, n, z, 1, TokenView::Space);
    }
}

/// `lemma_squeezed_lexes_alike` for a text that starts with a quote.
proof fn lemma_lex_quote_alike(s: Seq<char>)
    requires
        s.len() > 0,
        is_quote(s[0]),
    ensures
        lex_alike(lexed(s), lexed(squeezed(s, None))),
    decreases s.len(), 0int,
{
    let q = s[0];
    let p = |c: char| in_class(Class::Until(q), c);
    let inner = s.skip(1);
    lemma_run(inner, p);
    let n = class_run(inner, Class::Until(q));
    assert forall|i: int| 0 <= i < n implies #[trigger] inner[i] != q by {
        assert(p(inner[i]));
    }
    lemma_squeezed_quoted(inner, q, n);
    let z = squeezed(s, None);
    if n == inner.len() {
        assert(seq![q] + inner =~= s);
    } else {
        let rest = s.skip(n + 2);
        let tail = squeezed(rest, None);
        assert(inner.skip(n + 1) =~= rest);
        assert(z =~= s.take(n + 2) + tail);
        lemma_squeezed_lexes_alike(rest);
        let behind = z.skip(1);
        assert forall|i: int| 0 <= i < n implies in_class(
            Class::Until(q),
            #[trigger] behind[i],
        ) by {
            assert(behind[i] == inner[i]);
        }
        assert(behind[n] == inner[n]);
        lemma_run_is(behind, p, n);
        assert(z.subrange(1, n + 1) =~= s.subrange(1, n + 1));
        assert(z.skip(n + 2) =~= tail);
        lemma_lex_alike_behind(s, n + 2, z, n + 2, TokenView::String(s.subrange(1, n + 1)));
    }
}

/// `lemma_squeezed_lexes_alike` for a text that starts with a number or a word.
proof fn lemma_lex_run_alike(s: Seq<char>, class: Class)
    requires
        s.len() > 0,
        class is Number || class is Word,
        in_class(class, s[0]),
    ensures
        lex_alike(lexed(s), lexed(squeezed(s, None))),
    decreases s.len(), 0int,
{
    let p = |c: char| in_class(class, c);
    lemma_run(s, p);
    let n = class_run(s, class);
    assert(p(s[0]));
    assert forall|i: int| 0 <= i < n implies !is_space(#[trigger] s[i]) && !is_quote(s[i]) by {
        assert(p(s[i]));
        lemma_class_is_plain(class, s[i]);
    }
    lemma_squeezed_plain(s, n);
    let z = squeezed(s, None);
    let rest = s.skip(n);
    let tail = squeezed(rest, None);
    lemma_squeezed_lexes_alike(rest);
    lemma_squeezed_first(rest);
    assert forall|i: int| 0 <= i < n implies in_class(class, #[trigger] z[i]) by {
        assert(z[i] == s[i]);
        assert(p(s[i]));
    }
    if n < z.len() {
        assert(z[n] == tail[0]);
        assert(rest[0] == s[n]);
        assert(!p(s[n]));
    }
    lemma_run_is(z, p, n);
    assert(z.take(n) =~= s.take(n));
    assert(z.skip(n) =~= tail);
    assert(z[0] == s[0]);
    assert(first_token(z) == first_token(s));
    if let Ok((t, k)) = first_token(s) {
        lemma_lex_alike_behind(s, n, z, n, t);
    }
}

/// A space at the end does not outlast cleaning.
proof fn lemma_last_space_is_cleaned(before: Option<TokenView>, tokens: Seq<TokenView>)
    ensures
        cleaned(before, tokens.push(TokenView::Space)) == cleaned(before, tokens),
    decreases tokens.len(),
{
    let all = tokens.push(TokenView::Space);
    let none = Seq::<TokenView>::empty();
    let space = Some(TokenView::Space);
    lemma_space_run(tokens);
    let n = space_run(tokens);
    if n == tokens.len() {
        lemma_space_run_is(all, n + 1);
        assert(all.skip(n + 1) =~= none);
        assert(tokens.skip(n) =~= none);
        assert(cleaned(space, none) =~= none);
        assert(cleaned(before, all) =~= none);
        assert(cleaned(before, tokens) =~= none);
    } else if n > 0 {
        assert(all[n] == tokens[n]);
        lemma_space_run_is(all, n);
        assert(all.skip(n) =~= tokens.skip(n).push(TokenView::Space));
        assert(all[0] == tokens[0]);
        lemma_last_space_is_cleaned(space, tokens.skip(n));
    } else {
        assert(all[0] == tokens[0]);
        assert(all.skip(1) =~= tokens.skip(1).push(TokenView::Space));
        lemma_last_space_is_cleaned(Some(tokens[0]), tokens.skip(1));
    }
}

/// A line has the tokens that it has with its white space squeezed.
proof fn lemma_squeezed_tokens(s: Seq<char>)
    ensures
        tokens_of(squeezed(s, None)) == tokens_of(s),
{
    lemma_squeezed_lexes_alike(s);
    if let Ok(tokens) = lexed(squeezed(s, None)) {
        lemma_last_space_is_cleaned(None, tokens);
    }
}

/// White space before a line, cut off in part, does not matter.
proof fn lemma_skipped_tokens(s: Seq<char>, k: int)
    requires
        0 <= k <= s.len(),
        forall|i: int| 0 <= i < k ==> is_space(#[trigger] s[i]),
    ensures
        tokens_of(s.skip(k)) == tokens_of(s),
{
    let p = |c: char| is_space(c);
    let rest = s.skip(k);
    lemma_run(rest, p);
    let n = run(rest, p);
    assert forall|i: int| 0 <= i < k + n implies is_space(#[trigger] s[i]) by {
        if i >= k {
            assert(p(rest[i - k]));
            assert(rest[i - k] == s[i]);
        }
    }
    if k + n < s.len() {
        assert(rest[n] == s[k + n]);
        assert(!p(rest[n]));
    }
    lemma_run_is(s, p, k + n);
    assert(rest.skip(n) =~= s.skip(k + n));
    law_leading_space_is_skipped(s);
    law_leading_space_is_skipped(rest);
}

/// White space outside of quotes matters only for where it stands: two lines that differ
/// in how much and what white space stands at the start, at the end and between the same
/// characters have the same tokens, or the same is wrong with them.
pub proof fn law_white_space_does_not_matter(a: Seq<char>, b: Seq<char>)
    requires
        essence(a) == essence(b),
    ensures
        tokens_of(a) == tokens_of(b),
{
    lemma_squeezed_tokens(trim_start(a));
    lemma_squeezed_tokens(trim_start(b));
    law_leading_space_is_skipped(a);
    law_leading_space_is_skipped(b);
}

/// Whether the text is all white space.
pub open spec fn is_blank(s: Seq<char>) -> bool {
    forall|i: int| 0 <= i < s.len() ==> is_space(#[trigger] s[i])
}

/// White space opens and closes no quote.
proof fn lemma_quote_behind_space(s: Seq<char>, k: int)
    requires
        0 <= k <= s.len(),
        forall|i: int| 0 <= i < k ==> is_space(#[trigger] s[i]),
    ensures
        open_quote(s.skip(k), None) == open_quote(s, None),
    decreases k,
{
    if k == 0 {
        assert(s.skip(0) =~= s);
    } else {
        assert(is_space(s[0]));
        let rest = s.skip(1);
        assert forall|i: int| 0 <= i < k - 1 implies is_space(#[trigger] rest[i]) by {
            assert(rest[i] == s[i + 1]);
        }
        lemma_quote_behind_space(rest, k - 1);
        assert(rest.skip(k - 1) =~= s.skip(k));
    }
}

/// White space before a text adds to what it starts with.
proof fn lemma_squeezed_behind_blank(a: Seq<char>, s: Seq<char>)
    requires
        is_blank(a),
        a.len() > 0,
    ensures
        squeezed(a + s, None) == if space_length(s) == s.len() {
            Seq::empty()
        } else {
            seq![' '] + squeezed(s.skip(space_length(s)), None)
        },
{
    let all = a + s;
    let n = a.len() + space_length(s);
    lemma_space_length(s);
    assert forall|i: int| 0 <= i < n implies is_space(#[trigger] all[i]) by {
        if i < a.len() {
            assert(all[i] == a[i]);
        } else {
            assert(all[i] == s[i - a.len()]);
        }
    }
    if n < all.len() {
        assert(all[n] == s[space_length(s)]);
    }
    lemma_space_length_is(all, n);
    assert(is_space(all[0]));
    assert(all.skip(n) =~= s.skip(space_length(s)));
}

/// White space can stand for other white space in what is squeezed.
proof fn lemma_squeezed_replaced(
    s: Seq<char>,
    a: Seq<char>,
    b: Seq<char>,
    after: Seq<char>,
    quote: Option<char>,
)
    requires
        open_quote(s, quote) is None,
        is_blank(a),
        is_blank(b),
        a.len() > 0,
        b.len() > 0,
    ensures
        squeezed(s + a + after, quote) == squeezed(s + b + after, quote),
    decreases s.len(),
{
    let x = s + a + after;
    let y = s + b + after;
    lemma_space_length(s);
    let k = space_length(s);
    if quote is None && k == s.len() {
        assert(is_blank(s + a)) by {
            assert forall|i: int| 0 <= i < (s + a).len() implies is_space(#[trigger] (s + a)[i]) by {
                if i < s.len() {
                    assert((s + a)[i] == s[i]);
                } else {
                    assert((s + a)[i] == a[i - s.len()]);
                }
            }
        }
        assert(is_blank(s + b)) by {
            assert forall|i: int| 0 <= i < (s + b).len() implies is_space(#[trigger] (s + b)[i]) by {
                if i < s.len() {
                    assert((s + b)[i] == s[i]);
                } else {
                    assert((s + b)[i] == b[i - s.len()]);
                }
            }
        }
        lemma_squeezed_behind_blank(s + a, after);
        lemma_squeezed_behind_blank(s + b, after);
    } else if quote is None && is_space(s[0]) {
        lemma_space_before(s, a + after);
        lemma_space_before(s, b + after);
        assert(s + (a + after) =~= x);
        assert(s + (b + after) =~= y);
        lemma_quote_behind_space(s, k);
        lemma_squeezed_replaced(s.skip(k), a, b, after, None);
        assert(x.skip(k) =~= s.skip(k) + a + after);
        assert(y.skip(k) =~= s.skip(k) + b + after);
        assert(x[0] == s[0] && y[0] == s[0]);
    } else {
        assert(x[0] == s[0] && y[0] == s[0]);
        lemma_squeezed_replaced(s.skip(1), a, b, after, quote_behind(quote, s[0]));
        assert(x.skip(1) =~= s.skip(1) + a + after);
        assert(y.skip(1) =~= s.skip(1) + b + after);
    }
}

/// What follows other characters does not matter to the white space before them.
proof fn lemma_space_before(s: Seq<char>, after: Seq<char>)
    requires
        space_length(s) < s.len(),
    ensures
        space_length(s + after) == space_length(s),
{
    let k = space_length(s);
    lemma_space_length(s);
    assert forall|i: int| 0 <= i < k implies is_space(#[trigger] (s + after)[i]) by {
        assert((s + after)[i] == s[i]);
    }
    assert((s + after)[k] == s[k]);
    lemma_space_length_is(s + after, k);
}

/// White space at the end is not left in what is squeezed.
proof fn lemma_squeezed_end(s: Seq<char>, b: Seq<char>, quote: Option<char>)
    requires
        open_quote(s, quote) is None,
        is_blank(b),
    ensures
        squeezed(s + b, quote) == squeezed(s, quote),
    decreases s.len(),
{
    let x = s + b;
    lemma_space_length(s);
    let k = space_length(s);
    if b.len() == 0 {
        assert(x =~= s);
    } else if quote is None && k == s.len() {
        assert forall|i: int| 0 <= i < x.len() implies is_space(#[trigger] x[i]) by {
            if i < s.len() {
                assert(x[i] == s[i]);
            } else {
                assert(x[i] == b[i - s.len()]);
            }
        }
        lemma_space_length_is(x, x.len() as int);
        assert(is_space(x[0]));
        assert(squeezed(x, None) =~= Seq::<char>::empty());
        if s.len() > 0 {
            assert(is_space(s[0]));
        }
        assert(squeezed(s, None) =~= Seq::<char>::empty());
    } else if quote is None && is_space(s[0]) {
        lemma_space_before(s, b);
        lemma_quote_behind_space(s, k);
        lemma_squeezed_end(s.skip(k), b, None);
        assert(x.skip(k) =~= s.skip(k) + b);
        assert(x[0] == s[0]);
    } else {
        assert(x[0] == s[0]);
        lemma_squeezed_end(s.skip(1), b, quote_behind(quote, s[0]));
        assert(x.skip(1) =~= s.skip(1) + b);
    }
}

/// White space that stands in a line outside of quotes can stand for any other, errors
/// included.
pub proof fn law_white_space_can_be_replaced(
    before: Seq<char>,
    a: Seq<char>,
    b: Seq<char>,
    after: Seq<char>,
)
    requires
        open_quote(before, None) is None,
        is_blank(a),
        is_blank(b),
        a.len() > 0,
        b.len() > 0,
    ensures
        tokens_of(before + a + after) == tokens_of(before + b + after),
{
    lemma_squeezed_replaced(before, a, b, after, None);
    lemma_squeezed_tokens(before + a + after);
    lemma_squeezed_tokens(before + b + after);
}

/// White space can be added before a line, and behind it where no quote is open.
pub proof fn law_white_space_can_be_added(a: Seq<char>, s: Seq<char>, b: Seq<char>)
    requires
        is_blank(a),
        is_blank(b),
        b.len() > 0 ==> open_quote(s, None) is None,
    ensures
        tokens_of(a + s + b) == tokens_of(s),
{
    let all = a + s + b;
    assert forall|i: int| 0 <= i < a.len() implies is_space(#[trigger] all[i]) by {
        assert(all[i] == a[i]);
    }
    lemma_skipped_tokens(all, a.len() as int);
    assert(all.skip(a.len() as int) =~= s + b);
    if b.len() > 0 {
        lemma_squeezed_end(s, b, None);
        lemma_squeezed_tokens(s + b);
        lemma_squeezed_tokens(s);
    } else {
        assert(s + b =~= s);
    }
}

/// A number and a unit behind it, spaces between them or not, form a duration of as many
/// units, and the line is written in that unit; what follows is formed by itself.
pub proof fn law_number_and_unit_form_duration(
    n: real,
    word: Seq<char>,
    u: UnitView,
    rest: Seq<TokenView>,
    registry: Seq<UnitDefView>,
    seen: Seq<UnitView>,
)
    requires
        find_unit(word, registry) == Some(u),
    ensures
        ({
            let near = seq![TokenView::Num(n), TokenView::Ident(word)] + rest;
            let far = seq![TokenView::Num(n), TokenView::Space, TokenView::Ident(word)] + rest;
            let (tokens, units) = formed(near, registry, seen);
            &&& formed(far, registry, seen) == (tokens, units)
            &&& tokens.len() > 0 && tokens[0] == TokenView::Duration(n * u.factor)
            &&& units.contains(u)
            &&& seen.contains(u) ==> (tokens.skip(1), units) == formed(rest, registry, seen)
            &&& !seen.contains(u) ==> (tokens.skip(1), units) == formed(
                rest,
                registry,
                seen.push(u),
            )
        }),
{
    let near = seq![TokenView::Num(n), TokenView::Ident(word)] + rest;
    let far = seq![TokenView::Num(n), TokenView::Space, TokenView::Ident(word)] + rest;
    lemma_space_run_is(near.skip(1), 0);
    lemma_space_run_is(far.skip(1), 1);
    assert(near[0] is Num && near[1] == TokenView::Ident(word));
    assert(far[0] is Num && far[2] == TokenView::Ident(word));
    assert(near.skip(2) =~= rest);
    assert(far.skip(3) =~= rest);
    let units = with_unit(seen, u);
    let tail = formed(rest, registry, units).0;
    let t = TokenView::Duration(n * u.factor);
    assert((seq![t] + tail).skip(1) =~= tail);
    assert(seen.push(u)[seen.len() as int] == u);
    assert(units.contains(u));
    law_units_are_kept(rest, registry, units);
}

/// The units that a line is written in are those that were met before, and behind them
/// others, each once.
pub proof fn law_units_are_kept(
    tokens: Seq<TokenView>,
    registry: Seq<UnitDefView>,
    seen: Seq<UnitView>,
)
    ensures
        seen.len() <= formed(tokens, registry, seen).1.len(),
        formed(tokens, registry, seen).1.take(seen.len() as int) == seen,
        forall|u: UnitView| #[trigger]
            seen.contains(u) ==> formed(tokens, registry, seen).1.contains(u),
        seen.no_duplicates() ==> formed(tokens, registry, seen).1.no_duplicates(),
    decreases tokens.len(),
{
    let units = formed(tokens, registry, seen).1;
    if tokens.len() == 0 {
        assert(units.take(seen.len() as int) =~= seen);
    } else if tokens[0] is Num && unit_behind(tokens, registry) is Some {
        let u = unit_behind(tokens, registry)->0;
        lemma_space_run(tokens.skip(1));
        let n = 2 + space_run(tokens.skip(1));
        let with = with_unit(seen, u);
        assert(with.take(seen.len() as int) =~= seen);
        law_units_are_kept(tokens.skip(n), registry, with);
        assert(units.take(seen.len() as int) =~= units.take(with.len() as int).take(
            seen.len() as int,
        ));
        assert forall|v: UnitView| #[trigger] seen.contains(v) implies units.contains(v) by {
            let i = choose|i: int| 0 <= i < seen.len() && seen[i] == v;
            assert(with[i] == v);
            assert(with.contains(v));
        }
    } else {
        law_units_are_kept(tokens.skip(1), registry, seen);
    }
}

/// Tokens that are no number before a unit stay as they are.
pub proof fn law_other_tokens_stay(
    t: TokenView,
    rest: Seq<TokenView>,
    registry: Seq<UnitDefView>,
    seen: Seq<UnitView>,
)
    requires
        !(t is Num) || unit_behind(seq![t] + rest, registry) is None,
    ensures
        formed(seq![t] + rest, registry, seen) == (
            seq![t] + formed(rest, registry, seen).0,
            formed(rest, registry, seen).1,
        ),
{
    let all = seq![t] + rest;
    assert(all[0] == t);
    assert(all.skip(1) =~= rest);
}

/// A word that names a unit and no function adds that unit to those of the line, unless one
/// of that name is there; other words add none.
pub proof fn law_unit_words_are_collected(
    word: Seq<char>,
    units: Seq<UnitView>,
    registry: Seq<UnitDefView>,
    funcs: Seq<FuncView>,
)
    ensures
        ({
            let after = collected(ExprView::Ident(word), units, registry, funcs);
            match find_unit(word, registry) {
                Some(u) => if is_function_word(word, funcs) {
                    after == units
                } else {
                    exists|i: int| 0 <= i < after.len() && (#[trigger] after[i]).name == u.name
                },
                None => after == units,
            }
        }),
{
    if let Some(u) = find_unit(word, registry) {
        let after = collected(ExprView::Ident(word), units, registry, funcs);
        if !is_function_word(word, funcs) && !has_unit_named(units, u.name) {
            assert(after[units.len() as int].name == u.name);
        }
    }
}

/// Whether no two units have one name.
pub open spec fn have_own_names(units: Seq<UnitView>) -> bool {
    forall|i: int, j: int|
        0 <= i < j < units.len() ==> (#[trigger] units[i]).name != (#[trigger] units[j]).name
}

/// Collecting the units of an expression keeps those that there are, and adds none of a
/// name that is there.
pub proof fn law_collecting_keeps_units(
    e: ExprView,
    units: Seq<UnitView>,
    registry: Seq<UnitDefView>,
    funcs: Seq<FuncView>,
)
    ensures
        units.len() <= collected(e, units, registry, funcs).len(),
        collected(e, units, registry, funcs).take(units.len() as int) == units,
        have_own_names(units) ==> have_own_names(collected(e, units, registry, funcs)),
    decreases size(e),
{
    let after = collected(e, units, registry, funcs);
    match e {
        ExprView::Ident(word) => {
            assert(after.take(units.len() as int) =~= units);
        },
        ExprView::UnaryMinus(a) => {
            law_collecting_keeps_units(*a, units, registry, funcs);
        },
        ExprView::To(a, target) => {
            law_collecting_keeps_units(*a, units, registry, funcs);
        },
        ExprView::Add(a, b) => {
            lemma_collecting_both(*a, *b, units, registry, funcs);
        },
        ExprView::Sub(a, b) => {
            lemma_collecting_both(*a, *b, units, registry, funcs);
        },
        ExprView::Mul(a, b) => {
            lemma_collecting_both(*a, *b, units, registry, funcs);
        },
        ExprView::Div(a, b) => {
            lemma_collecting_both(*a, *b, units, registry, funcs);
        },
        ExprView::Mod(a, b) => {
            lemma_collecting_both(*a, *b, units, registry, funcs);
        },
        ExprView::Apply(a, b) => {
            lemma_collecting_both(*a, *b, units, registry, funcs);
        },
        _ => {
            assert(after.take(units.len() as int) =~= units);
        },
    }
}

/// `law_collecting_keeps_units` for two expressions, one after the other.
proof fn lemma_collecting_both(
    a: ExprView,
    b: ExprView,
    units: Seq<UnitView>,
    registry: Seq<UnitDefView>,
    funcs: Seq<FuncView>,
)
    ensures
        ({
            let after = collected(
                b,
                collected(a, units, registry, funcs),
                registry,
                funcs,
            );
            &&& units.len() <= after.len()
            &&& after.take(units.len() as int) == units
            &&& have_own_names(units) ==> have_own_names(after)
        }),
    decreases size(a) + size(b) + 1,
{
    let between = collected(a, units, registry, funcs);
    let after = collected(b, between, registry, funcs);
    law_collecting_keeps_units(a, units, registry, funcs);
    law_collecting_keeps_units(b, between, registry, funcs);
    assert(after.take(units.len() as int) =~= after.take(between.len() as int).take(
        units.len() as int,
    ));
}

/// The units of an expression are those of all its operands, those of the left one first.
pub proof fn law_units_of_operands(
    operator: Operator,
    a: ExprView,
    b: ExprView,
    target: TargetView,
    units: Seq<UnitView>,
    registry: Seq<UnitDefView>,
    funcs: Seq<FuncView>,
)
    ensures
        ({
            let left = collected(a, units, registry, funcs);
            &&& collected(joined(operator, a, b), units, registry, funcs) == collected(
                b,
                left,
                registry,
                funcs,
            )
            &&& collected(ExprView::UnaryMinus(Box::new(a)), units, registry, funcs) == left
            &&& collected(ExprView::To(Box::new(a), target), units, registry, funcs) == left
        }),
{
}

/// White space between two tokens is one space where the first can end an operand (a
/// number, a duration, a text, a word, `now`, `_` or a closing parenthesis) and the second
/// can start one (the same, with an opening parenthesis for the closing one); elsewhere
/// nothing is left of it.
pub proof fn law_space_between_tokens(
    a: TokenView,
    spaces: Seq<TokenView>,
    b: TokenView,
    rest: Seq<TokenView>,
)
    requires
        spaces.len() > 0,
        forall|i: int| 0 <= i < spaces.len() ==> (#[trigger] spaces[i]) is Space,
        !(a is Space),
        !(b is Space),
    ensures
        ({
            let between = (a is Num || a is Duration || a is String || a is Ident || a is Now
                || a is Underscore || a is RParen) && (b is Num || b is Duration || b is String
                || b is Ident || b is Now || b is Underscore || b is LParen);
            cleaned(None, seq![a] + spaces + seq![b] + rest) == seq![a] + if between {
                seq![TokenView::Space]
            } else {
                Seq::empty()
            } + (seq![b] + cleaned(Some(b), rest))
        }),
{
    let all = seq![a] + spaces + seq![b] + rest;
    let behind = spaces + seq![b] + rest;
    let n = spaces.len() as int;
    let more = seq![b] + rest;
    assert(all.skip(1) =~= behind);
    assert(behind[n] == b);
    assert forall|i: int| 0 <= i < n implies (#[trigger] behind[i]) is Space by {
        assert(behind[i] == spaces[i]);
    }
    lemma_space_run_is(behind, n);
    assert(behind[0] == spaces[0]);
    assert(behind.skip(n) =~= more);
    assert(more.skip(1) =~= rest);
    let last = seq![b] + cleaned(Some(b), rest);
    assert(cleaned(Some(TokenView::Space), more) == last);
    assert(all[0] == a);
    assert(cleaned(None, all) == seq![a] + cleaned(Some(a), behind));
    assert(seq![a] + (seq![TokenView::Space] + last) =~= seq![a] + seq![TokenView::Space] + last);
    assert(seq![a] + Seq::<TokenView>::empty() + last =~= seq![a] + last);
}

/// A word is that of a function where it is the name of one or one of its other names, but
/// for the case of letters.
pub proof fn law_function_words(word: Seq<char>, funcs: Seq<FuncView>)
    ensures
        is_function_word(word, funcs) <==> exists|i: int|
            0 <= i < funcs.len() && (ascii_lower((#[trigger] funcs[i]).name) == ascii_lower(word)
                || exists|j: int|
                0 <= j < funcs[i].aliases.len() && ascii_lower(#[trigger] funcs[i].aliases[j])
                    == ascii_lower(word)),
{
}

} // verus!
