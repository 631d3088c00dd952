//! The line that is being typed, and the lines before it.

use tea_time::editor::{Action, Editor, Key};

fn typed(editor: &mut Editor, text: &str) {
    for c in text.chars() {
        assert!(matches!(
            editor.press(Key::Char { c, control: false }),
            Some(Action::Continue)
        ));
    }
}

fn press(editor: &mut Editor, key: Key) {
    assert!(matches!(editor.press(key), Some(Action::Continue)));
}

fn shows(editor: &Editor, text: &str, cursor: usize) {
    assert_eq!(editor.text(), text);
    assert_eq!(editor.cursor(), cursor);
}

fn enter(editor: &mut Editor) -> (String, String) {
    match editor.press(Key::Enter) {
        Some(Action::Submit { input, line }) => (input, line),
        other => panic!("{:?}", other),
    }
}

#[test]
fn text_is_typed_at_the_cursor() {
    let mut e = Editor::new();
    shows(&e, "", 0);
    typed(&mut e, "1h2");
    shows(&e, "1h2", 3);
    press(&mut e, Key::Left);
    typed(&mut e, " + ");
    shows(&e, "1h + 2", 5);
}

#[test]
fn characters_are_removed_on_either_side_of_the_cursor() {
    let mut e = Editor::new();
    typed(&mut e, "abcd");
    press(&mut e, Key::Left);
    press(&mut e, Key::Backspace);
    shows(&e, "abd", 2);
    press(&mut e, Key::Delete);
    shows(&e, "ab", 2);
    press(&mut e, Key::Delete);
    shows(&e, "ab", 2);
    press(&mut e, Key::Backspace);
    press(&mut e, Key::Backspace);
    press(&mut e, Key::Backspace);
    shows(&e, "", 0);
}

#[test]
fn the_cursor_stays_in_the_text() {
    let mut e = Editor::new();
    typed(&mut e, "ab");
    press(&mut e, Key::Right);
    shows(&e, "ab", 2);
    for _ in 0..5 {
        press(&mut e, Key::Left);
    }
    shows(&e, "ab", 0);
    press(&mut e, Key::Right);
    press(&mut e, Key::Left);
    shows(&e, "ab", 0);
    press(&mut e, Key::Other);
    shows(&e, "ab", 0);
}

#[test]
fn backspace_takes_back_what_was_typed() {
    let mut e = Editor::new();
    typed(&mut e, "ab");
    press(&mut e, Key::Left);
    for c in ['x', '\u{e9}', '\u{20ac}', '\u{1f375}'] {
        typed(&mut e, &c.to_string());
        press(&mut e, Key::Backspace);
        shows(&e, "ab", 1);
    }
}

#[test]
fn edits_do_not_fall_inside_a_character() {
    let mut e = Editor::new();
    typed(&mut e, "\u{e9}");
    shows(&e, "\u{e9}", 1);
    assert!(e.press(Key::Char { c: 'x', control: false }).is_none());
    assert!(e.press(Key::Delete).is_none());
    shows(&e, "\u{e9}", 1);
    press(&mut e, Key::Right);
    shows(&e, "\u{e9}", 2);
    assert!(e.press(Key::Backspace).is_none());
    typed(&mut e, "x");
    shows(&e, "\u{e9}x", 3);
}

#[test]
fn lines_are_entered_without_white_space_around_them() {
    let mut e = Editor::new();
    typed(&mut e, "  1h + 2 ");
    assert_eq!(e.line(), "1h + 2");
    assert_eq!(enter(&mut e), ("  1h + 2 ".to_string(), "1h + 2".to_string()));
    shows(&e, "", 0);
    assert_eq!(enter(&mut e), (String::new(), String::new()));
}

#[test]
fn the_history_is_walked_back_and_forth() {
    let mut e = Editor::new();
    press(&mut e, Key::Up);
    press(&mut e, Key::Down);
    shows(&e, "", 0);
    for line in ["one", "two", "two", "   ", "three"] {
        typed(&mut e, line);
        enter(&mut e);
    }
    press(&mut e, Key::Up);
    shows(&e, "three", 5);
    press(&mut e, Key::Up);
    shows(&e, "two", 3);
    press(&mut e, Key::Up);
    shows(&e, "one", 3);
    press(&mut e, Key::Up);
    shows(&e, "one", 3);
    press(&mut e, Key::Down);
    shows(&e, "two", 3);
    press(&mut e, Key::Down);
    press(&mut e, Key::Down);
    shows(&e, "", 0);
    press(&mut e, Key::Down);
    shows(&e, "", 0);
}

#[test]
fn the_session_is_left_by_word_or_by_key() {
    for word in ["exit", " QUIT "] {
        let mut e = Editor::new();
        typed(&mut e, word);
        assert!(matches!(e.press(Key::Enter), Some(Action::Quit)));
    }
    let mut e = Editor::new();
    assert!(matches!(e.press(Key::Char { c: 'd', control: true }), Some(Action::Quit)));
    typed(&mut e, "1");
    press(&mut e, Key::Char { c: 'd', control: true });
    shows(&e, "1", 1);
    assert!(matches!(e.press(Key::Char { c: 'c', control: true }), Some(Action::Quit)));
    press(&mut e, Key::Char { c: 'a', control: true });
    shows(&e, "1a", 2);
}
