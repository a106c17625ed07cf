use kexplore::textfield::TextField;
use kexplore::urlbar::{
    handle_url_key, UrlOutcome, KEY_BACKSPACE, KEY_DELETE, KEY_END, KEY_ESCAPE, KEY_HOME, KEY_KP_ENTER, KEY_LEFT,
    KEY_LOWER_A, KEY_LOWER_C, KEY_LOWER_V, KEY_LOWER_X, KEY_RETURN, KEY_RIGHT, KEY_UPPER_A, KEY_UPPER_C,
    KEY_UPPER_V, KEY_UPPER_X,
};

fn field(text: &str) -> TextField {
    let mut f = TextField::new();
    f.begin(text.to_string(), usize::MAX);
    f
}

#[test]
fn keysyms_are_the_x11_values() {
    // keysymdef.h: XK_Return, XK_KP_Enter, XK_Escape, XK_Left, XK_Right,
    // XK_Home, XK_End, XK_BackSpace, XK_Delete.
    assert_eq!(
        [KEY_RETURN, KEY_KP_ENTER, KEY_ESCAPE, KEY_LEFT, KEY_RIGHT, KEY_HOME, KEY_END, KEY_BACKSPACE, KEY_DELETE],
        [0xff0d, 0xff8d, 0xff1b, 0xff51, 0xff53, 0xff50, 0xff57, 0xff08, 0xffff]
    );
    // Latin letters are their ASCII codes.
    assert_eq!(
        [KEY_LOWER_A, KEY_UPPER_A, KEY_LOWER_C, KEY_UPPER_C, KEY_LOWER_X, KEY_UPPER_X, KEY_LOWER_V, KEY_UPPER_V],
        ['a' as u32, 'A' as u32, 'c' as u32, 'C' as u32, 'x' as u32, 'X' as u32, 'v' as u32, 'V' as u32]
    );
}

#[test]
fn enter_commits_the_text() {
    let mut f = field("/etc");
    assert!(matches!(handle_url_key(KEY_RETURN, false, false, "", &mut f), UrlOutcome::Commit(ref s) if s == "/etc"));
    assert!(matches!(handle_url_key(KEY_KP_ENTER, true, false, "", &mut f), UrlOutcome::Commit(ref s) if s == "/etc"));
    assert_eq!(f.text, "/etc");
}

#[test]
fn escape_cancels_editing() {
    let mut f = field("/etc");
    assert!(matches!(handle_url_key(KEY_ESCAPE, false, false, "", &mut f), UrlOutcome::Cancel));
    assert!(!f.active);
    assert_eq!(f.text, "");
    assert_eq!(f.caret, 0);
    assert!(f.is_consistent());
}

#[test]
fn typing_inserts_and_navigation_edits() {
    let mut f = field("/et");
    assert!(matches!(handle_url_key(0x63, false, false, "c", &mut f), UrlOutcome::Edited));
    assert_eq!(f.text, "/etc");
    assert!(matches!(handle_url_key(KEY_HOME, false, true, "", &mut f), UrlOutcome::Edited));
    assert_eq!(f.selection(), Some((0, 4)));
    assert!(matches!(handle_url_key(KEY_END, false, false, "", &mut f), UrlOutcome::Edited));
    assert_eq!(f.caret, 4);
    assert!(matches!(handle_url_key(KEY_LEFT, false, false, "", &mut f), UrlOutcome::Edited));
    assert_eq!(f.caret, 3);
    assert!(matches!(handle_url_key(KEY_RIGHT, false, false, "", &mut f), UrlOutcome::Edited));
    assert_eq!(f.caret, 4);
    assert!(matches!(handle_url_key(KEY_BACKSPACE, false, false, "", &mut f), UrlOutcome::Edited));
    assert_eq!(f.text, "/et");
    assert!(matches!(handle_url_key(KEY_HOME, false, false, "", &mut f), UrlOutcome::Edited));
    assert!(matches!(handle_url_key(KEY_DELETE, false, false, "", &mut f), UrlOutcome::Edited));
    assert_eq!(f.text, "et");
}

#[test]
fn ctrl_shortcuts() {
    let mut f = field("abc");
    assert!(matches!(handle_url_key(KEY_LOWER_A, true, false, "a", &mut f), UrlOutcome::Edited));
    assert_eq!(f.selection(), Some((0, 3)));
    assert!(matches!(handle_url_key(KEY_UPPER_C, true, true, "C", &mut f), UrlOutcome::Copy));
    assert!(matches!(handle_url_key(KEY_LOWER_X, true, false, "", &mut f), UrlOutcome::Cut));
    assert!(matches!(handle_url_key(KEY_LOWER_V, true, false, "", &mut f), UrlOutcome::Paste));
    // Other Ctrl chords type nothing.
    assert!(matches!(handle_url_key(0x71, true, false, "q", &mut f), UrlOutcome::Ignored));
    assert_eq!(f.text, "abc");
}

#[test]
fn ctrl_left_moves_by_word() {
    let mut f = field("/home/user");
    handle_url_key(KEY_LEFT, true, false, "", &mut f);
    assert_eq!(f.caret, 6);
}

#[test]
fn keys_without_text_are_ignored() {
    let mut f = field("abc");
    assert!(matches!(handle_url_key(0xffe1, false, true, "", &mut f), UrlOutcome::Ignored));
    assert_eq!(f.text, "abc");
    assert_eq!(f.caret, 3);
}
