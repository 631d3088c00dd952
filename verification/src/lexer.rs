//! From a line of input to tokens.

use crate::decimal::{decimal_value, parse_decimal};
use crate::number::is_digit;
use crate::syntax::{texts, tokens_view, Token, TokenView};
use crate::text::{
    chars_of, is_letter, is_space, lemma_run, lemma_run_is, run, same_word, text_between,
};
use vstd::prelude::*;

verus! {

/// What the characters of a token have in common.
#[derive(Clone, Copy)]
pub enum Class {
    Space,
    Number,
    Word,
    Until(char),
}

/// Whether `c` belongs to `class`.
pub open spec fn in_class(class: Class, c: char) -> bool {
    match class {
        Class::Space => is_space(c),
        Class::Number => is_digit(c) || c == '.',
        Class::Word => is_letter(c),
        Class::Until(end) => c != end,
    }
}

/// How many characters of `class` the text starts with.
pub open spec fn class_run(s: Seq<char>, class: Class) -> int {
    run(s, |c: char| in_class(class, c))
}

/// The token that a sign of one character is.
pub open spec fn sign_token(c: char) -> Option<TokenView> {
    if c == '+' {
        Some(TokenView::Plus)
    } else if c == '-' {
        Some(TokenView::Minus)
    } else if c == '*' {
        Some(TokenView::Multiply)
    } else if c == '/' {
        Some(TokenView::Divide)
    } else if c == '%' {
        Some(TokenView::Modulo)
    } else if c == '_' {
        Some(TokenView::Underscore)
    } else if c == '(' {
        Some(TokenView::LParen)
    } else if c == ')' {
        Some(TokenView::RParen)
    } else {
        None
    }
}

/// The token that a word is.
pub open spec fn word_token(word: Seq<char>) -> TokenView {
    if same_word(word, "as"@) {
        TokenView::As
    } else if same_word(word, "to"@) {
        TokenView::To
    } else if same_word(word, "now"@) {
        TokenView::Now
    } else {
        TokenView::Ident(word)
    }
}

/// The first token of a text that is not empty, and how many characters it takes; or
/// what is wrong with the text.
///
/// A quoted text ends at the next quote of the same kind, or with the input.
pub open spec fn first_token(s: Seq<char>) -> Result<(TokenView, int), Seq<char>> {
    let c = s[0];
    if is_space(c) {
        Ok((TokenView::Space, class_run(s, Class::Space)))
    } else if c == '"' || c == '\'' {
        let n = class_run(s.skip(1), Class::Until(c));
        Ok((TokenView::String(s.subrange(1, n + 1)), if n + 2 <= s.len() { n + 2 } else { n + 1 }))
    } else if sign_token(c) is Some {
        Ok((sign_token(c)->0, 1))
    } else if c == ':' {
        if s.len() > 1 && s[1] == '=' {
            Ok((TokenView::Assign, 2))
        } else {
            Err("Unexpected character: ':' (did you mean ':='?)"@)
        }
    } else if is_digit(c) || c == '.' {
        let n = class_run(s, Class::Number);
        match decimal_value(s.take(n)) {
            Ok(x) => Ok((TokenView::Num(x), n)),
            Err(e) => Err(e),
        }
    } else if is_letter(c) {
        let n = class_run(s, Class::Word);
        Ok((word_token(s.take(n)), n))
    } else {
        Err("Unexpected character: '"@ + seq![c] + "'"@)
    }
}

/// A token takes at least one character and no more than there are.
pub proof fn lemma_first_token(s: Seq<char>)
    requires
        s.len() > 0,
    ensures
        first_token(s) matches Ok((t, n)) ==> 0 < n <= s.len(),
{
    lemma_run(s, |c: char| in_class(Class::Space, c));
    lemma_run(s, |c: char| in_class(Class::Number, c));
    lemma_run(s, |c: char| in_class(Class::Word, c));
    lemma_run(s.skip(1), |c: char| in_class(Class::Until(s[0]), c));
    assert(s.take(0) == Seq::<char>::empty());
}

/// All tokens of a text, spaces among them, or what is wrong with the text.
pub open spec fn lexed(s: Seq<char>) -> Result<Seq<TokenView>, Seq<char>>
    decreases s.len(),
{
    if s.len() == 0 {
        Ok(Seq::empty())
    } else {
        match first_token(s) {
            Err(e) => Err(e),
            Ok((t, n)) => {
                proof {
                    lemma_first_token(s);
                }
                match lexed(s.skip(n)) {
                    Err(e) => Err(e),
                    Ok(rest) => Ok(seq![t] + rest),
                }
            },
        }
    }
}

/// Whether an operand can end with `t`.
pub open spec fn ends_operand(t: TokenView) -> bool {
    t is Num || t is Duration || t is String || t is Ident || t is Now || t is Underscore
        || t is RParen
}

/// Whether an operand can start with `t`.
pub open spec fn starts_operand(t: TokenView) -> bool {
    t is Num || t is Duration || t is String || t is Ident || t is Now || t is Underscore
        || t is LParen
}

/// How many spaces the tokens start with.
pub open spec fn space_run(tokens: Seq<TokenView>) -> int
    decreases tokens.len(),
{
    if tokens.len() > 0 && tokens[0] is Space {
        1 + space_run(tokens.skip(1))
    } else {
        0
    }
}

/// `tokens`, which stand behind `before`, with each run of spaces made one space where it
/// stands between two operands, and left out elsewhere.
pub open spec fn cleaned(before: Option<TokenView>, tokens: Seq<TokenView>) -> Seq<TokenView>
    decreases tokens.len(),
{
    if tokens.len() == 0 {
        Seq::empty()
    } else if tokens[0] is Space {
        let n = space_run(tokens);
        proof {
            lemma_space_run(tokens);
        }
        let rest = tokens.skip(n);
        let parts = before is Some && ends_operand(before->0) && rest.len() > 0 && starts_operand(
            rest[0],
        );
        if parts {
            seq![TokenView::Space] + cleaned(Some(TokenView::Space), rest)
        } else {
            cleaned(Some(TokenView::Space), rest)
        }
    } else {
        seq![tokens[0]] + cleaned(Some(tokens[0]), tokens.skip(1))
    }
}

/// A run of spaces ends at the first token that is none.
pub proof fn lemma_space_run(tokens: Seq<TokenView>)
    ensures
        0 <= space_run(tokens) <= tokens.len(),
        forall|i: int| 0 <= i < space_run(tokens) ==> (#[trigger] tokens[i]) is Space,
        space_run(tokens) < tokens.len() ==> !(tokens[space_run(tokens)] is Space),
        tokens.len() > 0 && tokens[0] is Space ==> space_run(tokens) > 0,
    decreases tokens.len(),
{
    if tokens.len() > 0 && tokens[0] is Space {
        let rest = tokens.skip(1);
        lemma_space_run(rest);
        assert forall|i: int| 0 <= i < space_run(tokens) implies (#[trigger] tokens[i]) is Space by {
            if i > 0 {
                assert(tokens[i] == rest[i - 1]);
            }
        }
    }
}

/// Spaces up to a token that is none are the run.
pub proof fn lemma_space_run_is(tokens: Seq<TokenView>, n: int)
    requires
        0 <= n <= tokens.len(),
        forall|i: int| 0 <= i < n ==> (#[trigger] tokens[i]) is Space,
        n < tokens.len() ==> !(tokens[n] is Space),
    ensures
        space_run(tokens) == n,
{
    lemma_space_run(tokens);
    if space_run(tokens) < n {
        assert(tokens[space_run(tokens)] is Space);
    }
    if n < space_run(tokens) {
        assert(tokens[n] is Space);
    }
}

/// The tokens of a line, or what is wrong with it.
pub open spec fn tokens_of(s: Seq<char>) -> Result<Seq<TokenView>, Seq<char>> {
    match lexed(s) {
        Ok(tokens) => Ok(cleaned(None, tokens)),
        Err(e) => Err(e),
    }
}

/// How many letters, and digits and points behind them, the text starts with.
pub open spec fn name_run(s: Seq<char>) -> int {
    let letters = class_run(s, Class::Word);
    letters + class_run(s.skip(letters), Class::Number)
}

/// How many characters the name takes that the text starts with, where it starts with one
/// of `names` and no letter follows.
pub open spec fn name_at(s: Seq<char>, names: Seq<Seq<char>>) -> Option<int> {
    let n = name_run(s);
    if s.len() > 0 && is_letter(s[0]) && names.contains(s.take(n)) && !(n < s.len()
        && is_letter(s[n])) {
        Some(n)
    } else {
        None
    }
}

/// A name takes at least one character and no more than there are.
pub proof fn lemma_name_at(s: Seq<char>, names: Seq<Seq<char>>)
    ensures
        name_at(s, names) matches Some(n) ==> 0 < n <= s.len(),
{
    let letters = class_run(s, Class::Word);
    lemma_run(s, |c: char| in_class(Class::Word, c));
    lemma_run(s.skip(letters), |c: char| in_class(Class::Number, c));
}

/// All tokens of a text, spaces among them, where each of `names` is one word; or what is
/// wrong with the text.
pub open spec fn lexed_with(s: Seq<char>, names: Seq<Seq<char>>) -> Result<
    Seq<TokenView>,
    Seq<char>,
>
    decreases s.len(),
{
    if s.len() == 0 {
        Ok(Seq::empty())
    } else {
        let first = match name_at(s, names) {
            Some(n) => Ok((TokenView::Ident(s.take(n)), n)),
            None => first_token(s),
        };
        match first {
            Err(e) => Err(e),
            Ok((t, n)) => {
                proof {
                    lemma_first_token(s);
                    lemma_name_at(s, names);
                }
                match lexed_with(s.skip(n), names) {
                    Err(e) => Err(e),
                    Ok(rest) => Ok(seq![t] + rest),
                }
            },
        }
    }
}

/// The tokens of a line in which each of `names` is one word, or what is wrong with it.
pub open spec fn tokens_with(s: Seq<char>, names: Seq<Seq<char>>) -> Result<
    Seq<TokenView>,
    Seq<char>,
> {
    match lexed_with(s, names) {
        Ok(tokens) => Ok(cleaned(None, tokens)),
        Err(e) => Err(e),
    }
}

/// Without names the tokens are the usual ones.
pub proof fn lemma_lexed_without_names(s: Seq<char>)
    ensures
        lexed_with(s, Seq::empty()) == lexed(s),
    decreases s.len(),
{
    if s.len() > 0 {
        lemma_first_token(s);
        if let Ok((t, n)) = first_token(s) {
            lemma_lexed_without_names(s.skip(n));
        }
    }
}

/// Whether `r` says what `expected` says.
pub open spec fn same_tokens(
    r: Result<Vec<Token>, String>,
    expected: Result<Seq<TokenView>, Seq<char>>,
) -> bool {
    match (r, expected) {
        (Ok(x), Ok(y)) => tokens_view(x@) == y,
        (Err(x), Err(y)) => x@ == y,
        _ => false,
    }
}

/// Whether `c` belongs to `class`.
fn belongs(class: Class, c: char) -> (r: bool)
    ensures
        r == in_class(class, c),
{
    match class {
        Class::Space => c.is_whitespace(),
        Class::Number => ('0' <= c && c <= '9') || c == '.',
        Class::Word => c.is_alphabetic(),
        Class::Until(end) => c != end,
    }
}

/// Where the run of `class` that starts at `from` ends.
pub fn run_end(chars: &Vec<char>, from: usize, class: Class) -> (r: usize)
    requires
        from <= chars@.len(),
    ensures
        from <= r <= chars@.len(),
        r - from == class_run(chars@.skip(from as int), class),
{
    let mut end: usize = from;
    while end < chars.len() && belongs(class, chars[end])
        invariant
            from <= end <= chars@.len(),
            forall|i: int| from <= i < end ==> in_class(class, #[trigger] chars@[i]),
        decreases chars@.len() - end,
    {
        end = end + 1;
    }
    proof {
        let s = chars@.skip(from as int);
        assert forall|i: int| 0 <= i < end - from implies in_class(class, #[trigger] s[i]) by {
            assert(s[i] == chars@[from + i]);
        }
        lemma_run_is(s, |c: char| in_class(class, c), end - from);
    }
    end
}

/// The token that a sign of one character is.
fn read_sign(c: char) -> (r: Option<Token>)
    ensures
        r is Some <==> sign_token(c) is Some,
        r matches Some(t) ==> sign_token(c) == Some(t@),
{
    if c == '+' {
        Some(Token::Plus)
    } else if c == '-' {
        Some(Token::Minus)
    } else if c == '*' {
        Some(Token::Multiply)
    } else if c == '/' {
        Some(Token::Divide)
    } else if c == '%' {
        Some(Token::Modulo)
    } else if c == '_' {
        Some(Token::Underscore)
    } else if c == '(' {
        Some(Token::LParen)
    } else if c == ')' {
        Some(Token::RParen)
    } else {
        None
    }
}

/// The token that a word is.
pub fn read_word(word: String) -> (r: Token)
    ensures
        r@ == word_token(word@),
{
    if word.as_str().eq_ignore_ascii_case("as") {
        Token::As
    } else if word.as_str().eq_ignore_ascii_case("to") {
        Token::To
    } else if word.as_str().eq_ignore_ascii_case("now") {
        Token::Now
    } else {
        Token::Ident(word)
    }
}

/// Reads the token that starts at `from`, and says where it ends.
fn read_token(chars: &Vec<char>, from: usize) -> (r: Result<(Token, usize), String>)
    requires
        from < chars@.len(),
    ensures
        match (r, first_token(chars@.skip(from as int))) {
            (Ok((t, end)), Ok((u, n))) => t@ == u && end == from + n && end <= chars@.len(),
            (Err(e), Err(f)) => e@ == f,
            _ => false,
        },
{
    let ghost s = chars@.skip(from as int);
    proof {
        lemma_first_token(s);
    }
    let len: usize = chars.len();
    let c: char = chars[from];
    if c.is_whitespace() {
        return Ok((Token::Space, run_end(chars, from, Class::Space)));
    }
    if c == '"' || c == '\'' {
        let end: usize = run_end(chars, from + 1, Class::Until(c));
        proof {
            assert(s.skip(1) == chars@.skip(from + 1));
            assert(s.subrange(1, end - from) == chars@.subrange(from + 1, end as int));
        }
        let text: String = text_between(chars, from + 1, end);
        let next: usize = if end < len {
            end + 1
        } else {
            end
        };
        return Ok((Token::String(text), next));
    }
    match read_sign(c) {
        Some(t) => return Ok((t, from + 1)),
        None => {},
    }
    if c == ':' {
        if from + 1 < len && chars[from + 1] == '=' {
            return Ok((Token::Assign, from + 2));
        }
        return Err("Unexpected character: ':' (did you mean ':='?)".to_owned());
    }
    if ('0' <= c && c <= '9') || c == '.' {
        let end: usize = run_end(chars, from, Class::Number);
        proof {
            assert(s.take(end - from) == chars@.subrange(from as int, end as int));
        }
        return match parse_decimal(text_between(chars, from, end).as_str()) {
            Ok(x) => Ok((Token::Num(x), end)),
            Err(e) => Err(e),
        };
    }
    if c.is_alphabetic() {
        let end: usize = run_end(chars, from, Class::Word);
        proof {
            assert(s.take(end - from) == chars@.subrange(from as int, end as int));
        }
        return Ok((read_word(text_between(chars, from, end)), end));
    }
    let mut message: String = "Unexpected character: '".to_owned();
    message.push(c);
    message.append("'");
    proof {
        assert(message@ =~= "Unexpected character: '"@ + seq![c] + "'"@);
    }
    Err(message)
}

/// Whether an operand can end with `t`.
fn can_end_operand(t: &Token) -> (r: bool)
    ensures
        r == ends_operand(t@),
{
    matches!(t, Token::Num(_) | Token::Duration(_) | Token::String(_) | Token::Ident(_)
        | Token::Now | Token::Underscore | Token::RParen)
}

/// Whether an operand can start with `t`.
fn can_start_operand(t: &Token) -> (r: bool)
    ensures
        r == starts_operand(t@),
{
    matches!(t, Token::Num(_) | Token::Duration(_) | Token::String(_) | Token::Ident(_)
        | Token::Now | Token::Underscore | Token::LParen)
}

/// Whether `t` is a space.
pub fn is_space_token(t: &Token) -> (r: bool)
    ensures
        r == (t@ is Space),
{
    matches!(t, Token::Space)
}

/// Where the run of spaces that starts at `from` ends.
pub fn space_end(tokens: &[Token], from: usize) -> (r: usize)
    requires
        from <= tokens@.len(),
    ensures
        from <= r <= tokens@.len(),
        r - from == space_run(tokens_view(tokens@).skip(from as int)),
{
    let ghost all = tokens_view(tokens@);
    let mut end: usize = from;
    while end < tokens.len() && is_space_token(&tokens[end])
        invariant
            all == tokens_view(tokens@),
            from <= end <= tokens@.len(),
            forall|i: int| from <= i < end ==> (#[trigger] all[i]) is Space,
        decreases tokens@.len() - end,
    {
        end = end + 1;
    }
    proof {
        let s = all.skip(from as int);
        assert forall|i: int| 0 <= i < end - from implies (#[trigger] s[i]) is Space by {
            assert(s[i] == all[from + i]);
        }
        lemma_space_run_is(s, end - from);
    }
    end
}

/// Leaves out the spaces that do not stand between two operands, and makes one space of
/// those that do.
pub fn clean_tokens(tokens: Vec<Token>) -> (r: Vec<Token>)
    ensures
        tokens_view(r@) == cleaned(None, tokens_view(tokens@)),
{
    let ghost all = tokens_view(tokens@);
    let ghost mut before: Option<TokenView> = None;
    let mut res: Vec<Token> = Vec::new();
    let mut i: usize = 0;
    assert(all.skip(0) == all);
    assert(tokens_view(res@) + cleaned(before, all) =~= cleaned(before, all));
    while i < tokens.len()
        invariant
            all == tokens_view(tokens@),
            i <= tokens@.len(),
            i > 0 ==> before == Some(all[i - 1]),
            i == 0 ==> before is None,
            tokens_view(res@) + cleaned(before, all.skip(i as int)) == cleaned(None, all),
        decreases tokens@.len() - i,
    {
        let ghost rest = all.skip(i as int);
        let ghost done = tokens_view(res@);
        proof {
            assert(rest[0] == all[i as int]);
        }
        if is_space_token(&tokens[i]) {
            let left: bool = i > 0 && can_end_operand(&tokens[i - 1]);
            let j: usize = space_end(&tokens, i);
            proof {
                lemma_space_run(rest);
                assert(rest[j - i - 1] == all[j - 1]);
                assert(rest.skip(j - i) == all.skip(j as int));
            }
            let right: bool = j < tokens.len() && can_start_operand(&tokens[j]);
            if left && right {
                res.push(Token::Space);
                proof {
                    assert(tokens_view(res@) =~= done.push(TokenView::Space));
                }
            }
            proof {
                before = Some(TokenView::Space);
                assert(tokens_view(res@) + cleaned(before, all.skip(j as int)) =~= cleaned(
                    None,
                    all,
                ));
            }
            i = j;
        } else {
            res.push(tokens[i].clone());
            proof {
                assert(tokens_view(res@) =~= done.push(all[i as int]));
                before = Some(all[i as int]);
                assert(rest.skip(1) == all.skip(i + 1));
                assert(tokens_view(res@) + cleaned(before, all.skip(i + 1)) =~= cleaned(None, all));
            }
            i = i + 1;
        }
    }
    proof {
        assert(cleaned(before, all.skip(i as int)) == Seq::<TokenView>::empty());
        assert(tokens_view(res@) + Seq::<TokenView>::empty() =~= tokens_view(res@));
    }
    res
}

/// Whether the text of `chars` from `from` up to `to` is one of `names`.
pub fn is_name(chars: &Vec<char>, from: usize, to: usize, names: &Vec<String>) -> (r: bool)
    requires
        from <= to <= chars@.len(),
    ensures
        r == texts(names@).contains(chars@.subrange(from as int, to as int)),
{
    let ghost words = texts(names@);
    let text: String = text_between(chars, from, to);
    let mut i: usize = 0;
    while i < names.len()
        invariant
            words == texts(names@),
            text@ == chars@.subrange(from as int, to as int),
            i <= names@.len(),
            forall|j: int| 0 <= j < i ==> #[trigger] words[j] != text@,
        decreases names@.len() - i,
    {
        assert(words[i as int] == names@[i as int]@);
        if names[i] == text {
            return true;
        }
        i = i + 1;
    }
    false
}

/// Where the name that starts at `from` ends.
fn find_name(chars: &Vec<char>, from: usize, names: &Vec<String>) -> (r: Option<usize>)
    requires
        from < chars@.len(),
    ensures
        match r {
            Some(end) => from < end <= chars@.len() && name_at(
                chars@.skip(from as int),
                texts(names@),
            ) == Some(end - from),
            None => name_at(chars@.skip(from as int), texts(names@)) is None,
        },
{
    let ghost s = chars@.skip(from as int);
    proof {
        lemma_name_at(s, texts(names@));
    }
    if !chars[from].is_alphabetic() {
        return None;
    }
    let letters: usize = run_end(chars, from, Class::Word);
    let end: usize = run_end(chars, letters, Class::Number);
    proof {
        assert(s.skip(letters - from) =~= chars@.skip(letters as int));
        assert(s.take(end - from) =~= chars@.subrange(from as int, end as int));
        if end < chars@.len() {
            assert(s[end - from] == chars@[end as int]);
        }
    }
    if !is_name(chars, from, end, names) || (end < chars.len() && chars[end].is_alphabetic()) {
        None
    } else {
        Some(end)
    }
}

/// Splits a line into tokens, each of `names` as one word.
pub fn tokenize_with(input: &str, names: &Vec<String>) -> (r: Result<Vec<Token>, String>)
    ensures
        same_tokens(r, tokens_with(input@, texts(names@))),
{
    let ghost words = texts(names@);
    let chars: Vec<char> = chars_of(input);
    let mut tokens: Vec<Token> = Vec::new();
    let mut i: usize = 0;
    assert(chars@.skip(0) == chars@);
    while i < chars.len()
        invariant
            words == texts(names@),
            chars@ == input@,
            i <= chars@.len(),
            match lexed_with(chars@.skip(i as int), words) {
                Ok(rest) => lexed_with(input@, words) == Ok::<Seq<TokenView>, Seq<char>>(
                    tokens_view(tokens@) + rest,
                ),
                Err(e) => lexed_with(input@, words) == Err::<Seq<TokenView>, Seq<char>>(e),
            },
        decreases chars@.len() - i,
    {
        let ghost done = tokens_view(tokens@);
        let ghost s = chars@.skip(i as int);
        proof {
            lemma_first_token(s);
        }
        let (t, end) = match find_name(&chars, i, names) {
            Some(end) => {
                assert(s.take(end - i) =~= chars@.subrange(i as int, end as int));
                (Token::Ident(text_between(&chars, i, end)), end)
            },
            None => match read_token(&chars, i) {
                Ok(read) => read,
                Err(e) => return Err(e),
            },
        };
        tokens.push(t);
        proof {
            assert(s.skip(end - i) == chars@.skip(end as int));
            assert(tokens_view(tokens@) =~= done.push(t@));
            if let Ok(rest) = lexed_with(chars@.skip(end as int), words) {
                assert(done + (seq![t@] + rest) =~= tokens_view(tokens@) + rest);
            }
        }
        i = end;
    }
    proof {
        assert(tokens_view(tokens@) + Seq::<TokenView>::empty() =~= tokens_view(tokens@));
    }
    Ok(clean_tokens(tokens))
}

/// Splits a line into tokens.
pub fn tokenize(input: &str) -> (r: Result<Vec<Token>, String>)
    ensures
        same_tokens(r, tokens_of(input@)),
{
    let none: Vec<String> = Vec::new();
    proof {
        assert(texts(none@) =~= Seq::<Seq<char>>::empty());
        lemma_lexed_without_names(input@);
    }
    tokenize_with(input, &none)
}

} // verus!
