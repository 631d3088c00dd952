//! Laws of what the characters of a line are read as.

use crate::decimal::{
    all_digits, decimal_value, lemma_power_of_ten, lemma_trimmed_is_same, part_value,
    power_of_ten,
};
use crate::lexer::{first_token, in_class, lexed, sign_token, word_token, Class};
use crate::number::{digits_value, integer_literal, is_digit};
use crate::syntax::TokenView;
use crate::text::{ascii_lower, is_letter, is_space, lemma_run_is};
use vstd::prelude::*;

verus! {

/// Whether `s` is read as the token `t` and then as what `rest` is read as.
pub open spec fn reads_first(s: Seq<char>, t: TokenView, rest: Seq<char>) -> bool {
    match lexed(rest) {
        Ok(tokens) => lexed(s) == Ok::<Seq<TokenView>, Seq<char>>(seq![t] + tokens),
        Err(e) => lexed(s) == Err::<Seq<TokenView>, Seq<char>>(e),
    }
}

/// The token that a text starts with is read first, and then what stands behind it.
proof fn lemma_reads_first(s: Seq<char>, t: TokenView, rest: Seq<char>, n: int)
    requires
        s.len() > 0,
        first_token(s) == Ok::<(TokenView, int), Seq<char>>((t, n)),
        s.skip(n) == rest,
    ensures
        reads_first(s, t, rest),
{
}

/// The signs of arithmetic, the underscore and the parentheses are tokens by themselves,
/// whatever follows them.
pub proof fn law_signs(c: char, t: TokenView, rest: Seq<char>)
    requires
        t is Plus && c == '+' || t is Minus && c == '-' || t is Multiply && c == '*' || t is Divide
            && c == '/' || t is Modulo && c == '%' || t is Underscore && c == '_' || t is LParen
            && c == '(' || t is RParen && c == ')',
    ensures
        reads_first(seq![c] + rest, t, rest),
{
    let s = seq![c] + rest;
    assert(s.skip(1) =~= rest);
    assert(sign_token(c) == Some(t));
    assert(!is_space(c));
    lemma_reads_first(s, t, rest, 1);
}

/// A colon and the equals sign behind it are the sign of a definition; a colon alone is
/// none.
pub proof fn law_sign_of_definition(rest: Seq<char>)
    ensures
        reads_first(seq![':', '='] + rest, TokenView::Assign, rest),
        rest.len() == 0 || rest[0] != '=' ==> lexed(seq![':'] + rest) is Err,
{
    let s = seq![':', '='] + rest;
    assert(s.skip(2) =~= rest);
    assert(!is_space(':'));
    lemma_reads_first(s, TokenView::Assign, rest, 2);
    let t = seq![':'] + rest;
    assert(t[0] == ':');
    if rest.len() > 0 {
        assert(t[1] == rest[0]);
    }
}

/// Letters up to the next character that is none are one word.
pub proof fn law_words_are_read_whole(word: Seq<char>, rest: Seq<char>)
    requires
        word.len() > 0,
        forall|i: int| 0 <= i < word.len() ==> is_letter(#[trigger] word[i]) && !is_space(word[i]),
        rest.len() > 0 ==> !is_letter(rest[0]),
    ensures
        reads_first(word + rest, word_token(word), rest),
{
    let s = word + rest;
    let n = word.len() as int;
    assert forall|i: int| 0 <= i < n implies in_class(Class::Word, #[trigger] s[i]) by {
        assert(s[i] == word[i]);
    }
    assert(s[0] == word[0]);
    assert(is_letter(word[0]) && !is_space(word[0]));
    lemma_run_is(s, |c: char| in_class(Class::Word, c), n);
    assert(s.take(n) =~= word);
    assert(s.skip(n) =~= rest);
    lemma_reads_first(s, word_token(word), rest, n);
}

/// The words `to`, `as` and `now`, in upper or lower case, are tokens of their own, and all
/// other words are names.
pub proof fn law_keywords(word: Seq<char>)
    ensures
        word_token(word) is To <==> ascii_lower(word) == "to"@,
        word_token(word) is As <==> ascii_lower(word) == "as"@,
        word_token(word) is Now <==> ascii_lower(word) == "now"@,
        !(word_token(word) is To || word_token(word) is As || word_token(word) is Now)
            ==> word_token(word) == TokenView::Ident(word),
{
    reveal_strlit("to");
    reveal_strlit("as");
    reveal_strlit("now");
    assert(ascii_lower("to"@) =~= "to"@);
    assert(ascii_lower("as"@) =~= "as"@);
    assert(ascii_lower("now"@) =~= "now"@);
    assert("to"@[0] != "as"@[0]);
}

/// Digits and points up to the next character that is neither are one number, of what they
/// say as a decimal; where they say nothing, that is the complaint.
pub proof fn law_numbers_are_read_whole(digits: Seq<char>, rest: Seq<char>)
    requires
        digits.len() > 0,
        forall|i: int|
            0 <= i < digits.len() ==> is_digit(#[trigger] digits[i]) || digits[i] == '.',
        rest.len() > 0 ==> !is_digit(rest[0]) && rest[0] != '.',
    ensures
        match decimal_value(digits) {
            Ok(x) => reads_first(digits + rest, TokenView::Num(x), rest),
            Err(e) => lexed(digits + rest) == Err::<Seq<TokenView>, Seq<char>>(e),
        },
{
    let s = digits + rest;
    let n = digits.len() as int;
    assert forall|i: int| 0 <= i < n implies in_class(Class::Number, #[trigger] s[i]) by {
        assert(s[i] == digits[i]);
    }
    assert(s[0] == digits[0]);
    assert(is_digit(digits[0]) || digits[0] == '.');
    lemma_run_is(s, |c: char| in_class(Class::Number, c), n);
    assert(s.take(n) =~= digits);
    assert(s.skip(n) =~= rest);
    if let Ok(x) = decimal_value(digits) {
        lemma_reads_first(s, TokenView::Num(x), rest, n);
    }
}

/// A text in quotes of either kind is all that stands between them, whatever follows; one
/// that is not closed goes on to the end of the line.
pub proof fn law_quotes(quote: char, s: Seq<char>, rest: Seq<char>)
    requires
        quote == '"' || quote == '\'',
        !s.contains(quote),
    ensures
        reads_first(seq![quote] + s + seq![quote] + rest, TokenView::String(s), rest),
        lexed(seq![quote] + s) == Ok::<Seq<TokenView>, Seq<char>>(seq![TokenView::String(s)]),
{
    let t = TokenView::String(s);
    let n = s.len() as int;
    let closed = seq![quote] + s + seq![quote] + rest;
    let behind = closed.skip(1);
    assert forall|i: int| 0 <= i < n implies in_class(
        Class::Until(quote),
        #[trigger] behind[i],
    ) by {
        assert(behind[i] == s[i]);
    }
    assert(behind[n] == quote);
    lemma_run_is(behind, |c: char| in_class(Class::Until(quote), c), n);
    assert(closed.subrange(1, n + 1) =~= s);
    assert(closed.skip(n + 2) =~= rest);
    assert(!is_space(quote));
    lemma_reads_first(closed, t, rest, n + 2);
    let open = seq![quote] + s;
    let none = Seq::<char>::empty();
    assert(open.skip(1) =~= s);
    assert forall|i: int| 0 <= i < n implies in_class(Class::Until(quote), #[trigger] s[i]) by {
        assert(s.contains(s[i]));
    }
    lemma_run_is(s, |c: char| in_class(Class::Until(quote), c), n);
    assert(open.subrange(1, n + 1) =~= s);
    assert(open.skip(n + 1) =~= none);
    lemma_reads_first(open, t, none, n + 1);
    assert(lexed(none) == Ok::<Seq<TokenView>, Seq<char>>(Seq::empty()));
    assert(seq![t] + Seq::<TokenView>::empty() =~= seq![t]);
}

/// A character that nothing starts with is complained of.
pub proof fn law_strange_characters(c: char, rest: Seq<char>)
    requires
        !is_space(c),
        !is_letter(c),
        !is_digit(c),
        !seq!['"', '\'', '+', '-', '*', '/', '%', '_', '(', ')', ':', '.'].contains(c),
    ensures
        lexed(seq![c] + rest) == Err::<Seq<TokenView>, Seq<char>>(
            "Unexpected character: '"@ + seq![c] + "'"@,
        ),
{
    let s = seq![c] + rest;
    let all = seq!['"', '\'', '+', '-', '*', '/', '%', '_', '(', ')', ':', '.'];
    assert(s[0] == c);
    assert(all[0] == '"' && all[1] == '\'' && all[2] == '+' && all[3] == '-' && all[4] == '*'
        && all[5] == '/' && all[6] == '%' && all[7] == '_' && all[8] == '(' && all[9] == ')'
        && all[10] == ':' && all[11] == '.');
}

/// The whole part of a decimal stands before the point and counts ones, and the fraction
/// behind it, of which each further digit counts a tenth of the one before; either may be
/// left out. Without a point all digits are of the whole part.
pub proof fn law_decimal_value(whole: Seq<char>, fraction: Seq<char>)
    requires
        all_digits(whole),
        all_digits(fraction),
        fraction.len() <= u32::MAX,
    ensures
        decimal_value(whole + seq!['.'] + fraction) == Ok::<real, Seq<char>>(
            digits_value(whole) as real + digits_value(fraction) as real / power_of_ten(
                fraction.len(),
            ) as real,
        ),
        whole.len() > 0 ==> decimal_value(whole) == Ok::<real, Seq<char>>(
            digits_value(whole) as real,
        ),
{
    let s = whole + seq!['.'] + fraction;
    let n = whole.len() as int;
    lemma_digits_are_part(whole);
    lemma_digits_are_part(fraction);
    lemma_no_space_in(whole);
    lemma_no_space_in(fraction);
    assert(s[n] == '.');
    if n > 0 {
        assert(s[0] == whole[0]);
        assert(is_digit(whole[0]));
    }
    if fraction.len() > 0 {
        assert(s.last() == fraction.last());
        assert(is_digit(fraction[fraction.len() - 1]));
    }
    lemma_trimmed_is_same(s);
    assert forall|i: int| 0 <= i < n implies (#[trigger] s[i]) != '.' by {
        assert(s[i] == whole[i]);
        assert(is_digit(whole[i]));
    }
    lemma_run_is(s, |c: char| c != '.', n);
    assert(s.take(n) =~= whole);
    assert(s.skip(n + 1) =~= fraction);
    lemma_power_of_ten(fraction.len());
    let a = digits_value(whole);
    let b = digits_value(fraction);
    let p = power_of_ten(fraction.len());
    lemma_split(a, b, p);
    if n > 0 {
        lemma_trimmed_is_same(whole);
        assert forall|i: int| 0 <= i < n implies (#[trigger] whole[i]) != '.' by {
            assert(is_digit(whole[i]));
        }
        lemma_run_is(whole, |c: char| c != '.', n);
    }
}

/// A whole number and a part of one over a common unit.
proof fn lemma_split(a: int, b: int, p: int)
    requires
        p > 0,
    ensures
        (a * p + b) as real / p as real == a as real + b as real / p as real,
{
    let x = a as real;
    let y = b as real;
    let z = p as real;
    assert((a * p + b) as real == x * z + y) by (nonlinear_arith)
        requires
            x == a as real,
            y == b as real,
            z == p as real,
    ;
    assert((x * z + y) / z == x + y / z) by (nonlinear_arith)
        requires
            z > 0real,
    ;
}

/// A row of digits, or none, is a part of a decimal.
proof fn lemma_digits_are_part(s: Seq<char>)
    requires
        all_digits(s),
    ensures
        part_value(s) == Some(digits_value(s)),
        s.len() > 0 ==> integer_literal(s) == Some(digits_value(s)),
{
    if s.len() > 0 {
        assert(is_digit(s[0]));
    }
}

/// Digits are no white space.
proof fn lemma_no_space_in(s: Seq<char>)
    requires
        all_digits(s),
    ensures
        s.len() > 0 ==> !is_space(s[0]) && !is_space(s.last()),
{
    if s.len() > 0 {
        assert(is_digit(s[0]));
        assert(is_digit(s[s.len() - 1]));
    }
}

} // verus!
