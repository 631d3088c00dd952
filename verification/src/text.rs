//! Text: what the library takes from the standard library's strings and characters.

use vstd::prelude::*;

verus! {

/// Whether `c` is an ASCII character.
pub open spec fn is_ascii_char(c: char) -> bool {
    (c as u32) < 128
}

/// What Unicode's `Alphabetic` property says of a character beyond ASCII that is no white
/// space.
pub uninterp spec fn unicode_alphabetic(c: char) -> bool;

/// Unicode's lower case of a text that is not all ASCII.
pub uninterp spec fn unicode_lower_case(s: Seq<char>) -> Seq<char>;

/// Whether `c` is white space: Unicode's `White_Space`.
pub open spec fn is_space(c: char) -> bool {
    let code = c as u32;
    ||| 0x09 <= code <= 0x0d
    ||| code == 0x20
    ||| code == 0x85
    ||| code == 0xa0
    ||| code == 0x1680
    ||| 0x2000 <= code <= 0x200a
    ||| code == 0x2028
    ||| code == 0x2029
    ||| code == 0x202f
    ||| code == 0x205f
    ||| code == 0x3000
}

/// Whether `c` is a letter; no white space is.
pub open spec fn is_letter(c: char) -> bool {
    if is_ascii_char(c) {
        ('a' <= c && c <= 'z') || ('A' <= c && c <= 'Z')
    } else {
        !is_space(c) && unicode_alphabetic(c)
    }
}

/// `c` with an upper-case ASCII letter made lower case.
pub open spec fn ascii_lower_char(c: char) -> char {
    if 'A' <= c && c <= 'Z' {
        (c as u32 + 32) as char
    } else {
        c
    }
}

/// `s` with its upper-case ASCII letters made lower case.
pub open spec fn ascii_lower(s: Seq<char>) -> Seq<char> {
    s.map_values(|c: char| ascii_lower_char(c))
}

/// Whether all of `s` is ASCII.
pub open spec fn is_ascii_text(s: Seq<char>) -> bool {
    forall|i: int| 0 <= i < s.len() ==> is_ascii_char(#[trigger] s[i])
}

/// `s` in lower case.
pub open spec fn lower_case(s: Seq<char>) -> Seq<char> {
    if is_ascii_text(s) {
        ascii_lower(s)
    } else {
        unicode_lower_case(s)
    }
}

/// Whether two texts are the same but for the case of ASCII letters.
pub open spec fn same_word(a: Seq<char>, b: Seq<char>) -> bool {
    ascii_lower(a) == ascii_lower(b)
}

/// How many characters `s` starts with that all satisfy `p`.
pub open spec fn run(s: Seq<char>, p: spec_fn(char) -> bool) -> int
    decreases s.len(),
{
    if s.len() > 0 && p(s[0]) {
        1 + run(s.skip(1), p)
    } else {
        0
    }
}

/// `s` without the white space that it starts with.
pub open spec fn trim_start(s: Seq<char>) -> Seq<char> {
    s.skip(run(s, |c: char| is_space(c)))
}

/// `s` without the white space that it ends with.
pub open spec fn trim_end(s: Seq<char>) -> Seq<char>
    decreases s.len(),
{
    if s.len() > 0 && is_space(s.last()) {
        trim_end(s.drop_last())
    } else {
        s
    }
}

/// `s` without white space around it.
pub open spec fn trimmed(s: Seq<char>) -> Seq<char> {
    trim_end(trim_start(s))
}

/// A run covers the characters up to the first that does not belong to it.
pub proof fn lemma_run(s: Seq<char>, p: spec_fn(char) -> bool)
    ensures
        0 <= run(s, p) <= s.len(),
        forall|i: int| 0 <= i < run(s, p) ==> p(#[trigger] s[i]),
        run(s, p) < s.len() ==> !p(s[run(s, p)]),
    decreases s.len(),
{
    if s.len() > 0 && p(s[0]) {
        let rest = s.skip(1);
        lemma_run(rest, p);
        assert forall|i: int| 0 <= i < run(s, p) implies p(#[trigger] s[i]) by {
            if i > 0 {
                assert(s[i] == rest[i - 1]);
            }
        }
    }
}

/// A row of characters that belong, up to one that does not, is the run.
pub proof fn lemma_run_is(s: Seq<char>, p: spec_fn(char) -> bool, n: int)
    requires
        0 <= n <= s.len(),
        forall|i: int| 0 <= i < n ==> p(#[trigger] s[i]),
        n < s.len() ==> !p(s[n]),
    ensures
        run(s, p) == n,
{
    lemma_run(s, p);
    if run(s, p) < n {
        assert(p(s[run(s, p)]));
    }
    if n < run(s, p) {
        assert(p(s[n]));
    }
}

/// `char::is_alphabetic`: of ASCII, the letters; beyond it, Unicode's `Alphabetic`, which
/// no white space has.
pub assume_specification[ char::is_alphabetic ](c: char) -> (r: bool)
    ensures
        is_ascii_char(c) ==> r == is_letter(c),
        is_space(c) ==> !r,
        !is_ascii_char(c) && !is_space(c) ==> r == unicode_alphabetic(c),
;

/// `char::is_whitespace`: the characters of Unicode's `White_Space`, which are few and are
/// listed in `is_space`.
pub assume_specification[ char::is_whitespace ](c: char) -> (r: bool)
    ensures
        r == is_space(c),
;

/// `str::to_lowercase`: on ASCII text it lowers the letters `A` to `Z`; any other text
/// becomes its Unicode lower case.
pub assume_specification[ str::to_lowercase ](s: &str) -> (r: std::string::String)
    ensures
        is_ascii_text(s@) ==> r@ == ascii_lower(s@),
        !is_ascii_text(s@) ==> r@ == unicode_lower_case(s@),
;

/// `str::eq_ignore_ascii_case`: whether the texts agree once their ASCII letters are
/// made lower case.
pub assume_specification[ str::eq_ignore_ascii_case ](s: &str, other: &str) -> (r: bool)
    ensures
        r == (ascii_lower(s@) == ascii_lower(other@)),
;

/// `String::push`: appends one character.
pub assume_specification[ std::string::String::push ](s: &mut std::string::String, c: char)
    ensures
        final(s)@ == old(s)@.push(c),
;

/// The characters of `s`.
pub fn chars_of(s: &str) -> (r: Vec<char>)
    ensures
        r@ == s@,
{
    let mut chars: Vec<char> = Vec::new();
    for c in it: s.chars()
        invariant
            it.seq() == s@,
            chars@ == s@.take(it.index() as int),
    {
        chars.push(c);
    }
    proof {
        assert(s@.take(s@.len() as int) == s@);
    }
    chars
}

/// The text made of the characters of `chars` from `from` up to `to`.
pub fn text_between(chars: &Vec<char>, from: usize, to: usize) -> (r: String)
    requires
        from <= to <= chars@.len(),
    ensures
        r@ == chars@.subrange(from as int, to as int),
{
    let mut text: String = String::new();
    let mut i: usize = from;
    while i < to
        invariant
            from <= i <= to <= chars@.len(),
            text@ == chars@.subrange(from as int, i as int),
        decreases to - i,
    {
        text.push(chars[i]);
        i = i + 1;
    }
    text
}

/// Where the text of `chars` without white space around it starts and ends.
pub fn trim_ends(chars: &Vec<char>) -> (r: (usize, usize))
    ensures
        r.0 <= r.1 <= chars@.len(),
        chars@.subrange(r.0 as int, r.1 as int) == trimmed(chars@),
{
    let mut from: usize = 0;
    while from < chars.len() && chars[from].is_whitespace()
        invariant
            from <= chars@.len(),
            forall|i: int| 0 <= i < from ==> is_space(#[trigger] chars@[i]),
        decreases chars@.len() - from,
    {
        from = from + 1;
    }
    proof {
        lemma_run_is(chars@, |c: char| is_space(c), from as int);
        assert(trim_start(chars@) == chars@.subrange(from as int, chars@.len() as int));
    }
    let mut to: usize = chars.len();
    while from < to && chars[to - 1].is_whitespace()
        invariant
            from <= to <= chars@.len(),
            trim_end(chars@.subrange(from as int, to as int)) == trimmed(chars@),
        decreases to,
    {
        proof {
            assert(chars@.subrange(from as int, to as int).drop_last() == chars@.subrange(
                from as int,
                to - 1,
            ));
        }
        to = to - 1;
    }
    (from, to)
}

} // verus!
