//! Tokens.

use tea_time::lexer::{clean_tokens, tokenize};
use tea_time::syntax::Token;

fn sketch(tokens: &[Token]) -> String {
    let mut s = String::new();
    for t in tokens {
        match t {
            Token::Num(_) => s.push('n'),
            Token::Ident(word) => {
                s.push('[');
                s.push_str(word);
                s.push(']');
            }
            Token::String(text) => {
                s.push('"');
                s.push_str(text);
                s.push('"');
            }
            Token::Plus => s.push('+'),
            Token::Minus => s.push('-'),
            Token::Multiply => s.push('*'),
            Token::Divide => s.push('/'),
            Token::Modulo => s.push('%'),
            Token::Underscore => s.push('_'),
            Token::LParen => s.push('('),
            Token::RParen => s.push(')'),
            Token::To => s.push('t'),
            Token::As => s.push('a'),
            Token::Now => s.push('N'),
            Token::Assign => s.push('='),
            Token::Duration(_) => s.push('d'),
            Token::Space => s.push(' '),
        }
    }
    s
}

fn lexes(input: &str, expected: &str) {
    match tokenize(input) {
        Ok(tokens) => assert_eq!(sketch(&tokens), expected, "`{}`", input),
        Err(e) => panic!("`{}` does not lex: {}", input, e),
    }
}

#[test]
fn signs_numbers_and_words_are_told_apart() {
    lexes("1+2-3*4/5%_", "n+n-n*n/n%_");
    lexes("(1)", "(n)");
    lexes("2h30m", "n[h]n[m]");
    lexes("f a := a", "[f] [a]=[a]");
    lexes("now To x AS y", "Nt[x]a[y]");
    lexes("Zeit_\u{e4}", "[Zeit]_[\u{e4}]");
}

#[test]
fn texts_end_at_the_same_quote_or_with_the_line() {
    lexes("\"a 'b'\"", "\"a 'b'\"");
    lexes("'a \"b'c", "\"a \"b\"[c]");
    lexes("'open ", "\"open \"");
    lexes("''", "\"\"");
}

#[test]
fn spaces_stay_only_between_operands() {
    lexes("  1 +  2  ", "n+n");
    lexes("1   h", "n [h]");
    lexes("f ( 1 ) 2", "[f] (n) n");
    lexes("1 to h", "nt[h]");
    lexes("\t1\u{a0}2\n", "n n");
}

#[test]
fn cleaning_a_second_time_changes_nothing() {
    for input in ["1 2  3", "f ( 1 )", " a := b + 1 ", "'x'  'y'"] {
        let once = tokenize(input).unwrap();
        let before = sketch(&once);
        assert_eq!(sketch(&clean_tokens(once)), before);
    }
}

#[test]
fn white_space_before_a_line_does_not_matter() {
    for input in ["1 2", "f a", "'x' + 1"] {
        let plain = sketch(&tokenize(input).unwrap());
        let spaced = sketch(&tokenize(&format!(" \t {}", input)).unwrap());
        assert_eq!(plain, spaced);
    }
}

#[test]
fn strange_characters_are_refused() {
    assert_eq!(tokenize("1 ; 2").err().unwrap(), "Unexpected character: ';'");
    assert_eq!(tokenize("\u{20ac}").err().unwrap(), "Unexpected character: '\u{20ac}'");
    assert_eq!(
        tokenize("a : b").err().unwrap(),
        "Unexpected character: ':' (did you mean ':='?)"
    );
    assert_eq!(tokenize("1.2.3").err().unwrap(), "invalid fractional part");
}

#[test]
fn white_space_outside_of_quotes_does_not_matter() {
    for (a, b) in [
        ("1 h", "1 \t\u{a0} h"),
        ("f  1   2", " f\n1\t2  "),
        ("1 + 'a  b'  'c'", "1  +  'a  b' 'c'   "),
        ("\"it's\" 1", "\"it's\"\t\t1\r\n"),
    ] {
        let (x, y) = (tokenize(a).unwrap(), tokenize(b).unwrap());
        assert_eq!(sketch(&x), sketch(&y), "`{}`", a);
    }
    for (a, b) in [("1 ; 2", "  1\t; 2 "), ("a : = b", "a :\t= b"), ("1.2.3 x", "1.2.3   x")] {
        assert_eq!(tokenize(a).err(), tokenize(b).err());
    }
    lexes("'open", "\"open\"");
    lexes("'open  ", "\"open  \"");
    lexes("' a' 1", "\" a\" n");
}

#[test]
fn white_space_is_a_short_list_and_no_letter() {
    let listed = |c: char| {
        matches!(
            c,
            '\u{9}'..='\u{d}'
                | ' '
                | '\u{85}'
                | '\u{a0}'
                | '\u{1680}'
                | '\u{2000}'..='\u{200a}'
                | '\u{2028}'
                | '\u{2029}'
                | '\u{202f}'
                | '\u{205f}'
                | '\u{3000}'
        )
    };
    for c in '\u{0}'..='\u{ffff}' {
        let blank = matches!(tokenize(&c.to_string()), Ok(tokens) if tokens.is_empty());
        assert_eq!(blank, listed(c), "{:?}", c);
    }
    for c in '\u{0}'..=char::MAX {
        assert_eq!(c.is_whitespace(), listed(c), "{:?}", c);
        assert!(!(c.is_whitespace() && c.is_alphabetic()), "{:?}", c);
    }
    for c in ['\u{85}', '\u{1680}', '\u{2003}', '\u{2028}', '\u{3000}'] {
        lexes(&format!("f{}1{}{}h", c, c, c), "[f] n [h]");
    }
}
