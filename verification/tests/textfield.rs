use kexplore::textfield::{is_word, TextField};

fn field(text: &str, caret: usize) -> TextField {
    let mut f = TextField::new();
    f.begin(text.to_string(), caret);
    f
}

#[test]
fn new_field_is_inactive_and_empty() {
    let f = TextField::new();
    assert!(!f.active);
    assert_eq!(f.text, "");
    assert_eq!(f.caret, 0);
    assert_eq!(f.anchor, None);
}

#[test]
fn begin_clamps_caret_to_text_and_char_boundary() {
    let f = field("hello world", 100);
    assert!(f.active);
    assert_eq!(f.caret, 11);
    // 'é' spans bytes 1..3: byte 2 is inside it.
    let g = field("héllo", 2);
    assert_eq!(g.caret, 1);
}

#[test]
fn moves_by_char_and_word() {
    let mut f = field("hello world", 11);
    f.move_left(false, false);
    assert_eq!(f.caret, 10);
    f.move_left(true, false);
    assert_eq!(f.caret, 6);
    f.move_left(true, false);
    assert_eq!(f.caret, 0);
    f.move_right(true, false);
    assert_eq!(f.caret, 5);
    f.move_right(false, false);
    assert_eq!(f.caret, 6);
}

#[test]
fn word_moves_stop_at_path_separators() {
    let mut f = field("/usr/local/bin", 14);
    f.move_left(true, false);
    assert_eq!(f.caret, 11);
    f.move_left(true, false);
    assert_eq!(f.caret, 5);
    f.move_right(true, false);
    assert_eq!(f.caret, 10);
}

#[test]
fn multibyte_steps_whole_chars() {
    let mut f = field("aé", 3);
    f.move_left(false, false);
    assert_eq!(f.caret, 1);
    f.move_right(false, false);
    assert_eq!(f.caret, 3);
}

#[test]
fn shift_moves_extend_a_selection() {
    let mut f = field("hello world", 11);
    f.move_left(true, true);
    assert_eq!(f.anchor, Some(11));
    assert_eq!(f.caret, 6);
    assert_eq!(f.selection(), Some((6, 11)));
    assert_eq!(f.selected_text(), Some("world"));
    f.move_home(true);
    assert_eq!(f.selection(), Some((0, 11)));
    // An unshifted move drops the selection.
    f.move_end(false);
    assert_eq!(f.anchor, None);
    assert_eq!(f.caret, 11);
    assert_eq!(f.selection(), None);
}

#[test]
fn select_all_then_delete_empties() {
    let mut f = field("abc", 1);
    f.select_all();
    assert_eq!(f.selection(), Some((0, 3)));
    assert!(f.delete_selection());
    assert_eq!(f.text, "");
    assert_eq!(f.caret, 0);
    assert!(!f.delete_selection());
}

#[test]
fn insert_replaces_selection() {
    let mut f = field("hello world", 11);
    f.move_left(true, true);
    f.insert("there");
    assert_eq!(f.text, "hello there");
    assert_eq!(f.caret, 11);
    assert_eq!(f.anchor, None);
    f.move_home(false);
    f.insert("¡");
    assert_eq!(f.text, "¡hello there");
    assert_eq!(f.caret, 2);
}

#[test]
fn backspace_and_delete_remove_one_char() {
    let mut f = field("abcé", 5);
    f.backspace(false);
    assert_eq!(f.text, "abc");
    assert_eq!(f.caret, 3);
    f.move_home(false);
    f.delete();
    assert_eq!(f.text, "bc");
    assert_eq!(f.caret, 0);
    // Nothing to remove at the edges.
    f.backspace(false);
    assert_eq!(f.text, "bc");
    f.move_end(false);
    f.delete();
    assert_eq!(f.text, "bc");
}

#[test]
fn ctrl_backspace_removes_a_word() {
    let mut f = field("/home/user/docs", 15);
    f.backspace(true);
    assert_eq!(f.text, "/home/user/");
    assert_eq!(f.caret, 11);
    f.backspace(true);
    assert_eq!(f.text, "/home/");
}

#[test]
fn backspace_removes_selection_only() {
    let mut f = field("abcdef", 4);
    f.move_left(false, true);
    f.move_left(false, true);
    f.backspace(false);
    assert_eq!(f.text, "abef");
    assert_eq!(f.caret, 2);
}

#[test]
fn cancel_clears_the_text() {
    let mut f = field("abc", 2);
    f.cancel();
    assert!(!f.active);
    assert_eq!(f.text, "");
    assert_eq!(f.anchor, None);
    assert_eq!(f.caret, 0);
    assert!(f.is_consistent());
}

#[test]
fn word_chars() {
    assert!(is_word('a'));
    assert!(is_word('Z'));
    assert!(is_word('7'));
    assert!(is_word('_'));
    assert!(is_word('-'));
    assert!(is_word('é'));
    assert!(!is_word('/'));
    assert!(!is_word('.'));
    assert!(!is_word(' '));
}

#[test]
fn backspace_undoes_a_typed_char() {
    let mut f = field("path", 2);
    f.insert("x");
    assert_eq!(f.text, "paxth");
    f.backspace(false);
    assert_eq!(f.text, "path");
    assert_eq!(f.caret, 2);
}

#[test]
fn left_then_right_returns() {
    let mut f = field("añb", 3);
    f.move_left(false, false);
    f.move_right(false, false);
    assert_eq!(f.caret, 3);
}

#[test]
fn backspace_after_an_empty_anchor_keeps_indices_on_the_text() {
    let mut f = field("ab", 2);
    assert!(f.is_consistent());
    // Shift+Right at the end anchors at 2 without a selection; Backspace
    // drops that anchor, so no index points past the shortened text.
    f.move_right(false, true);
    assert_eq!(f.anchor, Some(2));
    f.backspace(false);
    assert_eq!(f.text, "a");
    assert_eq!(f.caret, 1);
    assert_eq!(f.anchor, None);
    assert!(f.is_consistent());
    assert_eq!(f.selected_text(), None);
}

#[test]
fn word_moves_on_a_path() {
    let mut f = field("/home/user", 10);
    f.move_left(true, false);
    assert_eq!(f.caret, 6);
    f.move_left(true, false);
    assert_eq!(f.caret, 1);
    assert_eq!(f.text, "/home/user");
    assert_eq!(f.anchor, None);
}

#[test]
fn word_chars_in_and_beyond_ascii() {
    assert!(is_word('a') && is_word('7') && is_word('_') && is_word('-') && is_word('é'));
    assert!(!is_word('/') && !is_word('.') && !is_word(' '));
}
