//! The line that is being typed, and the lines before it.

use crate::syntax::{copy_texts, texts};
use crate::text::{ascii_lower, chars_of, same_word, text_between, trim_ends, trimmed};
use vstd::prelude::*;

verus! {

/// A key.
#[derive(Clone, Copy, Debug)]
pub enum Key {
    Char { c: char, control: bool },
    Backspace,
    Delete,
    Left,
    Right,
    Up,
    Down,
    Enter,
    Other,
}

/// What is to be done once a key is pressed. A line that is entered is evaluated, without
/// the white space around it.
#[derive(Debug)]
pub enum Action {
    Continue,
    Quit,
    Submit { input: String, line: String },
}

/// The model of an `Action`.
#[verifier::ext_equal]
pub enum ActionView {
    Continue,
    Quit,
    Submit(Seq<char>, Seq<char>),
}

impl View for Action {
    type V = ActionView;

    open spec fn view(&self) -> ActionView {
        match *self {
            Action::Continue => ActionView::Continue,
            Action::Quit => ActionView::Quit,
            Action::Submit { input, line } => ActionView::Submit(input@, line@),
        }
    }
}

/// The model of an `Editor`: the text, where the cursor stands in its UTF-8 encoding, the
/// lines that were entered, and which of them is shown.
#[verifier::ext_equal]
pub struct EditorView {
    pub text: Seq<char>,
    pub cursor: int,
    pub history: Seq<Seq<char>>,
    pub index: int,
}

/// How many bytes UTF-8 takes for `c`.
pub open spec fn width(c: char) -> int {
    if (c as u32) < 0x80 {
        1
    } else if (c as u32) < 0x800 {
        2
    } else if (c as u32) < 0x10000 {
        3
    } else {
        4
    }
}

/// How many bytes UTF-8 takes for `s`.
pub open spec fn byte_length(s: Seq<char>) -> int
    decreases s.len(),
{
    if s.len() == 0 {
        0
    } else {
        byte_length(s.drop_last()) + width(s.last())
    }
}

/// Which character starts `offset` bytes into the text, or `None` where none does and the
/// text does not end there either.
pub open spec fn place(s: Seq<char>, offset: int) -> Option<int>
    decreases s.len(),
{
    if offset == byte_length(s) {
        Some(s.len() as int)
    } else if s.len() == 0 {
        None
    } else {
        place(s.drop_last(), offset)
    }
}

/// Whether the cursor stands in the text or at its end, and a line of the history, or the
/// one behind them, is shown.
pub open spec fn in_bounds(e: EditorView) -> bool {
    0 <= e.cursor <= byte_length(e.text) && 0 <= e.index <= e.history.len()
}

/// The editor with an empty text and nothing entered.
pub open spec fn blank() -> EditorView {
    EditorView { text: Seq::empty(), cursor: 0, history: Seq::empty(), index: 0 }
}

/// The editor with `text` in it and the cursor at its end.
pub open spec fn showing(e: EditorView, text: Seq<char>, index: int) -> EditorView {
    EditorView { text, cursor: byte_length(text), history: e.history, index }
}

/// The editor without the character that starts `offset` bytes into its text; the cursor
/// is left there.
pub open spec fn without_char(e: EditorView, offset: int) -> Option<EditorView> {
    match place(e.text, offset) {
        Some(i) => if i < e.text.len() {
            Some(EditorView { text: e.text.remove(i), cursor: offset, ..e })
        } else {
            None
        },
        None => None,
    }
}

/// Whether the line asks to leave.
pub open spec fn is_farewell(line: Seq<char>) -> bool {
    same_word(line, "exit"@) || same_word(line, "quit"@)
}

/// The history once `line` is entered: neither an empty line nor the same line twice in a
/// row is kept.
pub open spec fn remembered(history: Seq<Seq<char>>, line: Seq<char>) -> Seq<Seq<char>> {
    if line.len() == 0 || (history.len() > 0 && history.last() == line) {
        history
    } else {
        history.push(line)
    }
}

/// The editor after a key is pressed, and what is to be done. The cursor moves by bytes:
/// it is `None` where an edit would fall inside a character, or where a text is too long
/// for the cursor to reach its end.
pub open spec fn pressed(e: EditorView, key: Key) -> Option<(EditorView, ActionView)> {
    match key {
        Key::Char { c, control } => if control && c == 'c' {
            Some((e, ActionView::Quit))
        } else if control && c == 'd' {
            Some(
                (
                    e,
                    if e.text.len() == 0 {
                        ActionView::Quit
                    } else {
                        ActionView::Continue
                    },
                ),
            )
        } else {
            match place(e.text, e.cursor) {
                Some(i) => if e.cursor < usize::MAX {
                    Some(
                        (
                            EditorView { text: e.text.insert(i, c), cursor: e.cursor + 1, ..e },
                            ActionView::Continue,
                        ),
                    )
                } else {
                    None
                },
                None => None,
            }
        },
        Key::Backspace => if e.cursor > 0 {
            match without_char(e, e.cursor - 1) {
                Some(after) => Some((after, ActionView::Continue)),
                None => None,
            }
        } else {
            Some((e, ActionView::Continue))
        },
        Key::Delete => if e.cursor < byte_length(e.text) {
            match without_char(e, e.cursor) {
                Some(after) => Some((after, ActionView::Continue)),
                None => None,
            }
        } else {
            Some((e, ActionView::Continue))
        },
        Key::Left => Some(
            (
                EditorView {
                    cursor: if e.cursor > 0 {
                        e.cursor - 1
                    } else {
                        e.cursor
                    },
                    ..e
                },
                ActionView::Continue,
            ),
        ),
        Key::Right => if e.cursor < byte_length(e.text) {
            if e.cursor < usize::MAX {
                Some((EditorView { cursor: e.cursor + 1, ..e }, ActionView::Continue))
            } else {
                None
            }
        } else {
            Some((e, ActionView::Continue))
        },
        Key::Up => if e.index > 0 {
            let line = e.history[e.index - 1];
            if byte_length(line) <= usize::MAX {
                Some((showing(e, line, e.index - 1), ActionView::Continue))
            } else {
                None
            }
        } else {
            Some((e, ActionView::Continue))
        },
        Key::Down => if e.index + 1 < e.history.len() {
            let line = e.history[e.index + 1];
            if byte_length(line) <= usize::MAX {
                Some((showing(e, line, e.index + 1), ActionView::Continue))
            } else {
                None
            }
        } else if e.index + 1 == e.history.len() {
            Some((showing(e, Seq::empty(), e.index + 1), ActionView::Continue))
        } else {
            Some((e, ActionView::Continue))
        },
        Key::Enter => {
            let line = trimmed(e.text);
            if is_farewell(line) {
                Some((e, ActionView::Quit))
            } else {
                let history = remembered(e.history, line);
                Some(
                    (
                        EditorView {
                            text: Seq::empty(),
                            cursor: 0,
                            history,
                            index: history.len() as int,
                        },
                        ActionView::Submit(e.text, line),
                    ),
                )
            }
        },
        Key::Other => Some((e, ActionView::Continue)),
    }
}

/// A text is at least as long in bytes as in characters.
proof fn lemma_byte_length(s: Seq<char>)
    ensures
        byte_length(s) >= s.len(),
    decreases s.len(),
{
    if s.len() > 0 {
        lemma_byte_length(s.drop_last());
    }
}

/// The bytes of a text are those of its two parts.
proof fn lemma_byte_length_split(s: Seq<char>, i: int)
    requires
        0 <= i <= s.len(),
    ensures
        byte_length(s) == byte_length(s.take(i)) + byte_length(s.skip(i)),
    decreases s.len(),
{
    if i == s.len() {
        assert(s.take(i) =~= s);
        assert(s.skip(i) =~= Seq::<char>::empty());
    } else {
        lemma_byte_length_split(s.drop_last(), i);
        assert(s.drop_last().take(i) =~= s.take(i));
        assert(s.drop_last().skip(i) =~= s.skip(i).drop_last());
        assert(s.skip(i).last() == s.last());
    }
}

/// The character at a place starts as many bytes into the text.
proof fn lemma_place(s: Seq<char>, offset: int)
    ensures
        match place(s, offset) {
            Some(i) => 0 <= i <= s.len() && byte_length(s.take(i)) == offset,
            None => true,
        },
    decreases s.len(),
{
    if offset == byte_length(s) {
        assert(s.take(s.len() as int) =~= s);
    } else if s.len() > 0 {
        lemma_place(s.drop_last(), offset);
        if let Some(i) = place(s.drop_last(), offset) {
            assert(s.drop_last().take(i) =~= s.take(i));
        }
    }
}

/// No key moves the cursor out of the text or the history.
pub proof fn law_cursor_stays_in_bounds(e: EditorView, key: Key)
    requires
        in_bounds(e),
    ensures
        match pressed(e, key) {
            Some((after, action)) => in_bounds(after),
            None => true,
        },
{
    lemma_place(e.text, e.cursor);
    lemma_place(e.text, e.cursor - 1);
    match key {
        Key::Char { c, control } => {
            if let Some(i) = place(e.text, e.cursor) {
                let text = e.text.insert(i, c);
                lemma_byte_length_split(e.text, i);
                lemma_byte_length_split(text, i);
                assert(text.take(i) =~= e.text.take(i));
                assert(text.skip(i).skip(1) =~= e.text.skip(i));
                lemma_byte_length_split(text.skip(i), 1);
                assert(text.skip(i).take(1).last() == c);
                lemma_byte_length(text.skip(i).take(1));
            }
        },
        Key::Backspace => {
            lemma_removal(e, e.cursor - 1);
        },
        Key::Delete => {
            lemma_removal(e, e.cursor);
        },
        Key::Up => {
            if e.index > 0 {
                lemma_byte_length(e.history[e.index - 1]);
            }
        },
        Key::Down => {
            if e.index + 1 < e.history.len() {
                lemma_byte_length(e.history[e.index + 1]);
            }
        },
        _ => {},
    }
}

/// Removing a character leaves the cursor in the text.
proof fn lemma_removal(e: EditorView, offset: int)
    requires
        in_bounds(e),
    ensures
        match without_char(e, offset) {
            Some(after) => in_bounds(after),
            None => true,
        },
{
    lemma_place(e.text, offset);
    if let Some(i) = place(e.text, offset) {
        if i < e.text.len() {
            let text = e.text.remove(i);
            lemma_byte_length_split(text, i);
            assert(text.take(i) =~= e.text.take(i));
            lemma_byte_length(text.skip(i));
            lemma_byte_length(text.take(i));
        }
    }
}

/// A longer start of a text takes more bytes.
proof fn lemma_byte_length_grows(s: Seq<char>, i: int, j: int)
    requires
        0 <= i < j <= s.len(),
    ensures
        byte_length(s.take(i)) < byte_length(s.take(j)),
{
    lemma_byte_length_split(s.take(j), i);
    assert(s.take(j).take(i) =~= s.take(i));
    lemma_byte_length(s.take(j).skip(i));
}

/// The character that starts as many bytes into a text as those before it take is found.
proof fn lemma_place_is(s: Seq<char>, i: int)
    requires
        0 <= i <= s.len(),
    ensures
        place(s, byte_length(s.take(i))) == Some(i),
    decreases s.len(),
{
    assert(s.take(s.len() as int) =~= s);
    if i < s.len() {
        lemma_byte_length_grows(s, i, s.len() as int);
        lemma_place_is(s.drop_last(), i);
        assert(s.drop_last().take(i) =~= s.take(i));
    }
}

/// No character starts between the starts of two that follow each other.
proof fn lemma_no_place(s: Seq<char>, offset: int, i: int)
    requires
        0 <= i < s.len(),
        byte_length(s.take(i)) < offset < byte_length(s.take(i + 1)),
    ensures
        place(s, offset) is None,
{
    lemma_place(s, offset);
    if let Some(j) = place(s, offset) {
        if j < i {
            lemma_byte_length_grows(s, j, i);
        }
        if i + 1 < j {
            lemma_byte_length_grows(s, i + 1, j);
        }
    }
}

/// Backspace takes back the character that was typed before it.
pub proof fn law_backspace_undoes_typing(e: EditorView, c: char)
    requires
        in_bounds(e),
        pressed(e, Key::Char { c, control: false }) is Some,
    ensures
        ({
            let (typed, action) = pressed(e, Key::Char { c, control: false })->0;
            pressed(typed, Key::Backspace) == Some((e, ActionView::Continue))
        }),
{
    let i = place(e.text, e.cursor)->0;
    let text = e.text.insert(i, c);
    lemma_place(e.text, e.cursor);
    assert(text.take(i) =~= e.text.take(i));
    lemma_place_is(text, i);
    assert(text.remove(i) =~= e.text);
}

/// Moving the cursor to the left and back leaves the editor as it was.
pub proof fn law_right_undoes_left(e: EditorView)
    requires
        in_bounds(e),
        0 < e.cursor <= usize::MAX,
    ensures
        ({
            let (moved, action) = pressed(e, Key::Left)->0;
            pressed(moved, Key::Right) == Some((e, ActionView::Continue))
        }),
{
}

/// Going back to the line before and forward again shows the same line of the history.
pub proof fn law_down_undoes_up(e: EditorView)
    requires
        in_bounds(e),
        0 < e.index < e.history.len(),
        byte_length(e.history[e.index - 1]) <= usize::MAX,
        byte_length(e.history[e.index]) <= usize::MAX,
    ensures
        ({
            let (back, action) = pressed(e, Key::Up)->0;
            pressed(back, Key::Down) == Some(
                (showing(e, e.history[e.index], e.index), ActionView::Continue),
            )
        }),
{
}

/// A line that was entered is shown again by going back one line.
pub proof fn law_up_recalls_entered_line(e: EditorView)
    requires
        in_bounds(e),
        trimmed(e.text).len() > 0,
        !is_farewell(trimmed(e.text)),
        byte_length(trimmed(e.text)) <= usize::MAX,
    ensures
        ({
            let (entered, action) = pressed(e, Key::Enter)->0;
            let (recalled, up) = pressed(entered, Key::Up)->0;
            recalled.text == trimmed(e.text) && recalled.cursor == byte_length(recalled.text)
        }),
{
}

/// Typing puts the character where the cursor stands and moves the cursor by one byte;
/// nothing else changes.
pub proof fn law_typing_inserts(e: EditorView, i: int, c: char, control: bool)
    requires
        0 <= i <= e.text.len(),
        e.cursor == byte_length(e.text.take(i)),
        e.cursor < usize::MAX,
        control ==> c != 'c' && c != 'd',
    ensures
        pressed(e, Key::Char { c, control }) == Some(
            (
                EditorView {
                    text: e.text.take(i) + seq![c] + e.text.skip(i),
                    cursor: e.cursor + 1,
                    history: e.history,
                    index: e.index,
                },
                ActionView::Continue,
            ),
        ),
{
    lemma_place_is(e.text, i);
    assert(e.text.insert(i, c) =~= e.text.take(i) + seq![c] + e.text.skip(i));
}

/// The key for it removes the character at the cursor, and backspace the one before, where
/// that takes one byte; nothing is removed at the ends of the text.
pub proof fn law_removing(e: EditorView, i: int)
    requires
        in_bounds(e),
        0 <= i < e.text.len(),
    ensures
        e.cursor == byte_length(e.text.take(i)) ==> pressed(e, Key::Delete) == Some(
            (
                EditorView {
                    text: e.text.take(i) + e.text.skip(i + 1),
                    cursor: e.cursor,
                    history: e.history,
                    index: e.index,
                },
                ActionView::Continue,
            ),
        ),
        e.cursor == byte_length(e.text.take(i)) + 1 ==> pressed(e, Key::Backspace) == Some(
            (
                EditorView {
                    text: e.text.take(i) + e.text.skip(i + 1),
                    cursor: e.cursor - 1,
                    history: e.history,
                    index: e.index,
                },
                ActionView::Continue,
            ),
        ),
        e.cursor == byte_length(e.text) ==> pressed(e, Key::Delete) == Some(
            (e, ActionView::Continue),
        ),
        e.cursor == 0 ==> pressed(e, Key::Backspace) == Some((e, ActionView::Continue)),
{
    let n = e.text.len() as int;
    lemma_place_is(e.text, i);
    lemma_byte_length_grows(e.text, i, n);
    lemma_byte_length(e.text.take(i));
    assert(e.text.take(n) =~= e.text);
    assert(e.text.remove(i) =~= e.text.take(i) + e.text.skip(i + 1));
}

/// The keys to the left and to the right move the cursor by one byte, as far as the text
/// goes, and leave everything else as it is.
pub proof fn law_moving(e: EditorView)
    requires
        in_bounds(e),
        e.cursor < usize::MAX,
    ensures
        ({
            let (left, by_left) = pressed(e, Key::Left)->0;
            let (right, by_right) = pressed(e, Key::Right)->0;
            &&& pressed(e, Key::Left) is Some && pressed(e, Key::Right) is Some
            &&& left.text == e.text && left.history == e.history && left.index == e.index
            &&& right.text == e.text && right.history == e.history && right.index == e.index
            &&& 0 <= left.cursor <= e.cursor <= right.cursor <= byte_length(e.text)
            &&& left.cursor == e.cursor - 1 <==> e.cursor > 0
            &&& right.cursor == e.cursor + 1 <==> e.cursor < byte_length(e.text)
            &&& left.cursor == e.cursor <==> e.cursor == 0
            &&& right.cursor == e.cursor <==> e.cursor == byte_length(e.text)
            &&& by_left is Continue && by_right is Continue
        }),
{
}

/// One leaves by control and `c`, by control and `d` where nothing is typed, and by
/// entering `exit` or `quit` in any case; in no other way.
pub proof fn law_leaving(e: EditorView, key: Key)
    requires
        pressed(e, key) is Some,
    ensures
        ({
            let (after, action) = pressed(e, key)->0;
            action is Quit <==> match key {
                Key::Char { c, control } => control && (c == 'c' || c == 'd' && e.text.len() == 0),
                Key::Enter => ascii_lower(trimmed(e.text)) == "exit"@ || ascii_lower(
                    trimmed(e.text),
                ) == "quit"@,
                _ => false,
            }
        }),
{
    reveal_strlit("exit");
    reveal_strlit("quit");
    assert(ascii_lower("exit"@) =~= "exit"@);
    assert(ascii_lower("quit"@) =~= "quit"@);
}

/// A line is handed over only where it is entered, as it was typed and without white space
/// around it. The text is then empty, and the lines entered before stand where they were.
pub proof fn law_entering(e: EditorView, key: Key)
    requires
        pressed(e, key) is Some,
    ensures
        ({
            let (after, action) = pressed(e, key)->0;
            let line = trimmed(e.text);
            &&& action is Submit ==> key is Enter && action == ActionView::Submit(e.text, line)
                && after.text.len() == 0 && after.cursor == 0 && after.index
                == after.history.len()
            &&& action is Submit && line.len() > 0 ==> after.history.len() > 0
                && after.history.last() == line
            &&& after.history == e.history || action is Submit && after.history
                == e.history.push(line)
        }),
{
}

/// Whether the history holds neither an empty line nor the same line twice in a row.
pub open spec fn is_tidy(history: Seq<Seq<char>>) -> bool {
    &&& forall|i: int| 0 <= i < history.len() ==> (#[trigger] history[i]).len() > 0
    &&& forall|i: int, j: int|
        0 <= i && j == i + 1 && j < history.len() ==> #[trigger] history[i] != #[trigger] history[j]
}

/// No key leaves an empty line in the history, or the same line twice in a row.
pub proof fn law_history_stays_tidy(e: EditorView, key: Key)
    requires
        is_tidy(e.history),
        pressed(e, key) is Some,
    ensures
        ({
            let (after, action) = pressed(e, key)->0;
            is_tidy(after.history)
        }),
{
    let (after, action) = pressed(e, key)->0;
    if after.history != e.history {
        assert forall|i: int, j: int|
            0 <= i && j == i + 1 && j < after.history.len() implies #[trigger] after.history[i]
            != #[trigger] after.history[j] by {
            if j < e.history.len() {
                assert(e.history[i] != e.history[j]);
            }
        }
    }
}

/// Going up shows the line before the one that is shown, and going down the one behind it,
/// or an empty text behind the last; the cursor is left at the end.
pub proof fn law_going_through_history(e: EditorView, key: Key)
    requires
        in_bounds(e),
        key is Up || key is Down,
        pressed(e, key) is Some,
    ensures
        ({
            let (after, action) = pressed(e, key)->0;
            &&& after.history == e.history && action is Continue
            &&& after.index == if key is Up && e.index > 0 {
                e.index - 1
            } else if key is Down && e.index < e.history.len() {
                e.index + 1
            } else {
                e.index
            }
            &&& after.index == e.index ==> after == e
            &&& after.index != e.index ==> after.cursor == byte_length(after.text) && after.text
                == if after.index < e.history.len() {
                e.history[after.index]
            } else {
                Seq::empty()
            }
        }),
{
}

/// How many bytes UTF-8 takes for `c`.
fn char_width(c: char) -> (r: usize)
    ensures
        r == width(c),
{
    let code: u32 = c as u32;
    if code < 0x80 {
        1
    } else if code < 0x800 {
        2
    } else if code < 0x10000 {
        3
    } else {
        4
    }
}

/// How many bytes UTF-8 takes for the text, where a `usize` can tell.
fn text_width(text: &Vec<char>) -> (r: Option<usize>)
    ensures
        match r {
            Some(n) => n == byte_length(text@),
            None => byte_length(text@) > usize::MAX,
        },
{
    let mut sum: usize = 0;
    let mut i: usize = 0;
    while i < text.len()
        invariant
            i <= text@.len(),
            sum == byte_length(text@.take(i as int)),
        decreases text@.len() - i,
    {
        proof {
            assert(text@.take(i + 1).drop_last() =~= text@.take(i as int));
            lemma_byte_length_split(text@, i + 1);
            lemma_byte_length(text@.skip(i + 1));
        }
        let w: usize = char_width(text[i]);
        if w > usize::MAX - sum {
            return None;
        }
        sum = sum + w;
        i = i + 1;
    }
    assert(text@.take(i as int) =~= text@);
    Some(sum)
}

/// Which character starts `offset` bytes into the text.
fn find_place(text: &Vec<char>, offset: usize) -> (r: Option<usize>)
    ensures
        match r {
            Some(i) => place(text@, offset as int) == Some(i as int),
            None => place(text@, offset as int) is None,
        },
{
    let mut sum: usize = 0;
    let mut i: usize = 0;
    while i < text.len()
        invariant
            i <= text@.len(),
            sum == byte_length(text@.take(i as int)),
            sum <= offset,
        decreases text@.len() - i,
    {
        if sum == offset {
            proof {
                lemma_place_is(text@, i as int);
            }
            return Some(i);
        }
        assert(text@.take(i + 1).drop_last() =~= text@.take(i as int));
        let w: usize = char_width(text[i]);
        if w > offset - sum {
            proof {
                lemma_no_place(text@, offset as int, i as int);
            }
            return None;
        }
        sum = sum + w;
        i = i + 1;
    }
    if sum == offset {
        proof {
            lemma_place_is(text@, i as int);
        }
        Some(i)
    } else {
        proof {
            assert(text@.take(i as int) =~= text@);
            lemma_place(text@, offset as int);
            if let Some(j) = place(text@, offset as int) {
                if j < text@.len() {
                    lemma_byte_length_grows(text@, j, text@.len() as int);
                }
            }
        }
        None
    }
}

/// The line that is being typed, and the lines before it.
#[derive(Debug)]
pub struct Editor {
    text: Vec<char>,
    cursor: usize,
    history: Vec<String>,
    index: usize,
}

impl View for Editor {
    type V = EditorView;

    closed spec fn view(&self) -> EditorView {
        EditorView {
            text: self.text@,
            cursor: self.cursor as int,
            history: texts(self.history@),
            index: self.index as int,
        }
    }
}

impl Editor {
    #[verifier::type_invariant]
    spec fn is_editor(self) -> bool {
        in_bounds(self@)
    }

    /// An editor with an empty text and nothing entered.
    pub fn new() -> (r: Editor)
        ensures
            r@ == blank(),
    {
        let r: Editor = Editor { text: Vec::new(), cursor: 0, history: Vec::new(), index: 0 };
        assert(texts(r.history@) =~= Seq::<Seq<char>>::empty());
        r
    }

    /// The text.
    pub fn text(&self) -> (r: String)
        ensures
            r@ == self@.text,
    {
        let r: String = text_between(&self.text, 0, self.text.len());
        assert(r@ =~= self.text@);
        r
    }

    /// The text without white space around it.
    pub fn line(&self) -> (r: String)
        ensures
            r@ == trimmed(self@.text),
    {
        let (from, to) = trim_ends(&self.text);
        text_between(&self.text, from, to)
    }

    /// How many bytes of the text stand before the cursor.
    pub fn cursor(&self) -> (r: usize)
        ensures
            r == self@.cursor,
    {
        self.cursor
    }

    /// Whether the cursor stands at the end of the text.
    fn is_at_end(&self) -> (r: bool)
        ensures
            r == (self@.cursor >= byte_length(self@.text)),
    {
        proof {
            use_type_invariant(self);
        }
        match text_width(&self.text) {
            Some(n) => self.cursor >= n,
            None => false,
        }
    }

    /// The editor without the character that starts at `offset`.
    fn remove_at(&self, offset: usize) -> (r: Option<Editor>)
        ensures
            match r {
                Some(after) => without_char(self@, offset as int) == Some(after@),
                None => without_char(self@, offset as int) is None,
            },
    {
        proof {
            use_type_invariant(self);
            lemma_removal(self@, offset as int);
        }
        match find_place(&self.text, offset) {
            Some(i) => {
                if i >= self.text.len() {
                    return None;
                }
                let mut text: Vec<char> = self.text.clone();
                assert(text@ =~= self.text@);
                text.remove(i);
                let history: Vec<String> = copy_texts(&self.history);
                Some(Editor { text, cursor: offset, history, index: self.index })
            },
            None => None,
        }
    }

    /// The editor with the line of the history at `index` in it.
    fn show(&self, index: usize) -> (r: Option<Editor>)
        requires
            index < self@.history.len(),
        ensures
            match r {
                Some(after) => byte_length(self@.history[index as int]) <= usize::MAX && after@
                    == showing(self@, self@.history[index as int], index as int),
                None => byte_length(self@.history[index as int]) > usize::MAX,
            },
    {
        let text: Vec<char> = chars_of(self.history[index].as_str());
        match text_width(&text) {
            Some(cursor) => {
                proof {
                    lemma_byte_length(text@);
                }
                let history: Vec<String> = copy_texts(&self.history);
                Some(Editor { text, cursor, history, index })
            },
            None => None,
        }
    }

    /// The editor with `c` typed into it.
    fn insert(&self, c: char) -> (r: Option<Editor>)
        ensures
            match r {
                Some(after) => pressed(self@, Key::Char { c, control: false }) == Some(
                    (after@, ActionView::Continue),
                ),
                None => pressed(self@, Key::Char { c, control: false }) is None,
            },
    {
        proof {
            use_type_invariant(self);
            law_cursor_stays_in_bounds(self@, Key::Char { c, control: false });
            lemma_place(self.text@, self.cursor as int);
        }
        match find_place(&self.text, self.cursor) {
            Some(i) => {
                if self.cursor == usize::MAX {
                    return None;
                }
                let mut text: Vec<char> = self.text.clone();
                assert(text@ =~= self.text@);
                text.insert(i, c);
                let history: Vec<String> = copy_texts(&self.history);
                Some(Editor { text, cursor: self.cursor + 1, history, index: self.index })
            },
            None => None,
        }
    }

    /// The editor with the cursor at `cursor`.
    fn move_to(&self, cursor: usize) -> (r: Editor)
        requires
            cursor <= byte_length(self@.text),
        ensures
            r@ == (EditorView { cursor: cursor as int, ..self@ }),
    {
        proof {
            use_type_invariant(self);
        }
        let text: Vec<char> = self.text.clone();
        assert(text@ =~= self.text@);
        Editor { text, cursor, history: copy_texts(&self.history), index: self.index }
    }

    /// The editor after the line in it is entered.
    fn enter(&self, line: &String) -> (r: Editor)
        ensures
            ({
                let history = remembered(self@.history, line@);
                r@ == EditorView {
                    text: Seq::empty(),
                    cursor: 0,
                    history,
                    index: history.len() as int,
                }
            }),
    {
        let mut history: Vec<String> = copy_texts(&self.history);
        let ghost before = texts(history@);
        let len: usize = history.len();
        let known: bool = len > 0 && history[len - 1] == *line;
        proof {
            if len > 0 {
                assert(before.last() == history@[len - 1]@);
            }
        }
        if chars_of(line.as_str()).len() > 0 && !known {
            history.push(line.clone());
            assert(texts(history@) =~= before.push(line@));
        }
        let index: usize = history.len();
        Editor { text: Vec::new(), cursor: 0, history, index }
    }

    /// Takes a key, and says what is to be done.
    ///
    /// It is `None`, and the editor is as it was, where an edit would fall inside a
    /// character, or where a text is too long for the cursor to reach its end.
    pub fn press(&mut self, key: Key) -> (r: Option<Action>)
        ensures
            match (r, pressed(old(self)@, key)) {
                (Some(action), Some((after, expected))) => action@ == expected && final(self)@
                    == after,
                (None, None) => final(self)@ == old(self)@,
                _ => false,
            },
    {
        proof {
            use_type_invariant(&*self);
            law_cursor_stays_in_bounds(self@, key);
        }
        let edited: Option<Editor> = match key {
            Key::Char { c, control } => {
                if control && c == 'c' {
                    return Some(Action::Quit);
                }
                if control && c == 'd' {
                    return if self.text.len() == 0 {
                        Some(Action::Quit)
                    } else {
                        Some(Action::Continue)
                    };
                }
                self.insert(c)
            },
            Key::Backspace => {
                if self.cursor == 0 {
                    return Some(Action::Continue);
                }
                self.remove_at(self.cursor - 1)
            },
            Key::Delete => {
                if self.is_at_end() {
                    return Some(Action::Continue);
                }
                self.remove_at(self.cursor)
            },
            Key::Left => {
                if self.cursor == 0 {
                    return Some(Action::Continue);
                }
                Some(self.move_to(self.cursor - 1))
            },
            Key::Right => {
                if self.is_at_end() {
                    return Some(Action::Continue);
                }
                if self.cursor == usize::MAX {
                    return None;
                }
                Some(self.move_to(self.cursor + 1))
            },
            Key::Up => {
                if self.index == 0 {
                    return Some(Action::Continue);
                }
                self.show(self.index - 1)
            },
            Key::Down => {
                let left: usize = self.history.len() - self.index;
                if left == 0 {
                    return Some(Action::Continue);
                }
                if left > 1 {
                    self.show(self.index + 1)
                } else {
                    let history: Vec<String> = copy_texts(&self.history);
                    let index: usize = history.len();
                    Some(Editor { text: Vec::new(), cursor: 0, history, index })
                }
            },
            Key::Enter => {
                let line: String = self.line();
                if line.as_str().eq_ignore_ascii_case("exit")
                    || line.as_str().eq_ignore_ascii_case("quit") {
                    return Some(Action::Quit);
                }
                let input: String = self.text();
                let after: Editor = self.enter(&line);
                *self = after;
                return Some(Action::Submit { input, line });
            },
            Key::Other => return Some(Action::Continue),
        };
        match edited {
            Some(after) => {
                *self = after;
                Some(Action::Continue)
            },
            None => None,
        }
    }
}

} // verus!
