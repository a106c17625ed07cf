//! Keyboard handling for the URL bar while it is being edited: each key
//! press either edits the field, asks the caller for a clipboard operation,
//! commits the typed path or cancels editing.

use vstd::prelude::*;
use vstd::utf8::encode_utf8;
use crate::textfield::{
    boundary_after, boundary_before, inserted, removed, word_end_after, word_start_before, TextField,
};

verus! {

// X11 keysym values (keysymdef.h) of the keys the URL bar reacts to.
pub const KEY_RETURN: u32 = 0xff0d;
pub const KEY_KP_ENTER: u32 = 0xff8d;
pub const KEY_ESCAPE: u32 = 0xff1b;
pub const KEY_LEFT: u32 = 0xff51;
pub const KEY_RIGHT: u32 = 0xff53;
pub const KEY_HOME: u32 = 0xff50;
pub const KEY_END: u32 = 0xff57;
pub const KEY_BACKSPACE: u32 = 0xff08;
pub const KEY_DELETE: u32 = 0xffff;
pub const KEY_LOWER_A: u32 = 0x61;
pub const KEY_UPPER_A: u32 = 0x41;
pub const KEY_LOWER_C: u32 = 0x63;
pub const KEY_UPPER_C: u32 = 0x43;
pub const KEY_LOWER_X: u32 = 0x78;
pub const KEY_UPPER_X: u32 = 0x58;
pub const KEY_LOWER_V: u32 = 0x76;
pub const KEY_UPPER_V: u32 = 0x56;

/// What a key press asks of the caller.
pub enum UrlOutcome {
    /// The key means nothing here.
    Ignored,
    /// Text or caret changed.
    Edited,
    /// Editing was abandoned.
    Cancel,
    /// Copy the selection to the clipboard.
    Copy,
    /// Copy the selection to the clipboard and delete it.
    Cut,
    /// Insert the clipboard's text.
    Paste,
    /// Navigate to the typed text.
    Commit(String),
}

/// The editing command a key press stands for.
pub enum KeyCommand {
    Commit,
    Cancel,
    Left,
    Right,
    Home,
    End,
    Backspace,
    Delete,
    SelectAll,
    Copy,
    Cut,
    Paste,
    Insert,
    Ignore,
}

/// The command for keysym `sym` with Ctrl held or not, where `text` is what
/// the key types. Navigation and editing keys come first; with Ctrl held
/// only A, C, X and V mean anything; otherwise a key that types text
/// inserts it.
pub open spec fn key_command(sym: u32, ctrl: bool, text: Seq<char>) -> KeyCommand {
    if sym == KEY_RETURN || sym == KEY_KP_ENTER {
        KeyCommand::Commit
    } else if sym == KEY_ESCAPE {
        KeyCommand::Cancel
    } else if sym == KEY_LEFT {
        KeyCommand::Left
    } else if sym == KEY_RIGHT {
        KeyCommand::Right
    } else if sym == KEY_HOME {
        KeyCommand::Home
    } else if sym == KEY_END {
        KeyCommand::End
    } else if sym == KEY_BACKSPACE {
        KeyCommand::Backspace
    } else if sym == KEY_DELETE {
        KeyCommand::Delete
    } else if ctrl {
        if sym == KEY_LOWER_A || sym == KEY_UPPER_A {
            KeyCommand::SelectAll
        } else if sym == KEY_LOWER_C || sym == KEY_UPPER_C {
            KeyCommand::Copy
        } else if sym == KEY_LOWER_X || sym == KEY_UPPER_X {
            KeyCommand::Cut
        } else if sym == KEY_LOWER_V || sym == KEY_UPPER_V {
            KeyCommand::Paste
        } else {
            KeyCommand::Ignore
        }
    } else if text.len() > 0 {
        KeyCommand::Insert
    } else {
        KeyCommand::Ignore
    }
}

/// The field after a key press, as the command's editing operation leaves it.
pub open spec fn key_effect(cmd: KeyCommand, ctrl: bool, shift: bool, text: Seq<char>, old: TextField, new: TextField) -> bool {
    match cmd {
        KeyCommand::Cancel => {
            &&& !new.active
            &&& new.text@ == Seq::<char>::empty()
            &&& new.anchor is None
            &&& new.caret == 0
        },
        KeyCommand::Left => {
            &&& new.text == old.text
            &&& new.active == old.active
            &&& new.anchor == old.anchor_after_move(shift)
            &&& new.caret == (if ctrl {
                word_start_before(old.text@, old.caret as int)
            } else {
                boundary_before(old.text@, old.caret as int)
            })
        },
        KeyCommand::Right => {
            &&& new.text == old.text
            &&& new.active == old.active
            &&& new.anchor == old.anchor_after_move(shift)
            &&& new.caret == (if ctrl {
                word_end_after(old.text@, old.caret as int)
            } else {
                boundary_after(old.text@, old.caret as int)
            })
        },
        KeyCommand::Home => {
            &&& new.text == old.text
            &&& new.active == old.active
            &&& new.anchor == old.anchor_after_move(shift)
            &&& new.caret == 0
        },
        KeyCommand::End => {
            &&& new.text == old.text
            &&& new.active == old.active
            &&& new.anchor == old.anchor_after_move(shift)
            &&& new.caret == encode_utf8(old.text@).len()
        },
        KeyCommand::Backspace => {
            &&& new.active == old.active
            &&& old.selection_spec() is Some ==> {
                &&& new.text@ == old.text_after_delete_selection()
                &&& new.caret == old.caret_after_delete_selection()
                &&& new.anchor is None
            }
            &&& old.selection_spec() is None ==> {
                let to = if ctrl {
                    word_start_before(old.text@, old.caret as int)
                } else {
                    boundary_before(old.text@, old.caret as int)
                };
                &&& new.text@ == removed(old.text@, to, old.caret as int)
                &&& new.caret == to
                &&& new.anchor is None
            }
        },
        KeyCommand::Delete => {
            &&& new.active == old.active
            &&& old.selection_spec() is Some ==> {
                &&& new.text@ == old.text_after_delete_selection()
                &&& new.caret == old.caret_after_delete_selection()
                &&& new.anchor is None
            }
            &&& old.selection_spec() is None ==> {
                &&& new.text@ == removed(
                    old.text@,
                    old.caret as int,
                    boundary_after(old.text@, old.caret as int),
                )
                &&& new.caret == old.caret
                &&& new.anchor == old.anchor
            }
        },
        KeyCommand::SelectAll => {
            &&& new.text == old.text
            &&& new.active == old.active
            &&& new.anchor == Some(0usize)
            &&& new.caret == encode_utf8(old.text@).len()
        },
        KeyCommand::Insert => {
            &&& new.text@ == inserted(old.text_after_delete_selection(), old.caret_after_delete_selection() as int, text)
            &&& new.caret == old.caret_after_delete_selection() + encode_utf8(text).len()
            &&& new.anchor == old.anchor_after_delete_selection()
            &&& new.active == old.active
        },
        _ => new == old,
    }
}

/// Apply key `sym` (with the Ctrl and Shift states and the text `typed` the
/// key produces) to the URL field being edited, and say what the caller
/// must do next.
pub fn handle_url_key(sym: u32, ctrl: bool, shift: bool, typed: &str, url: &mut TextField) -> (r: UrlOutcome)
    requires
        old(url).wf(),
        key_command(sym, ctrl, typed@) is Insert ==> encode_utf8(old(url).text@).len() + encode_utf8(typed@).len()
            <= usize::MAX,
    ensures
        key_effect(key_command(sym, ctrl, typed@), ctrl, shift, typed@, *old(url), *final(url)),
        match key_command(sym, ctrl, typed@) {
            KeyCommand::Commit => r matches UrlOutcome::Commit(s) && s@ == old(url).text@,
            KeyCommand::Cancel => r is Cancel,
            KeyCommand::Copy => r is Copy,
            KeyCommand::Cut => r is Cut,
            KeyCommand::Paste => r is Paste,
            KeyCommand::Ignore => r is Ignored,
            _ => r is Edited,
        },
        final(url).wf(),
{
    if sym == KEY_RETURN || sym == KEY_KP_ENTER {
        return UrlOutcome::Commit(url.text.clone());
    }
    if sym == KEY_ESCAPE {
        url.cancel();
        return UrlOutcome::Cancel;
    }
    if sym == KEY_LEFT {
        url.move_left(ctrl, shift);
    } else if sym == KEY_RIGHT {
        url.move_right(ctrl, shift);
    } else if sym == KEY_HOME {
        url.move_home(shift);
    } else if sym == KEY_END {
        url.move_end(shift);
    } else if sym == KEY_BACKSPACE {
        url.backspace(ctrl);
    } else if sym == KEY_DELETE {
        url.delete();
    } else if ctrl {
        if sym == KEY_LOWER_A || sym == KEY_UPPER_A {
            url.select_all();
            return UrlOutcome::Edited;
        } else if sym == KEY_LOWER_C || sym == KEY_UPPER_C {
            return UrlOutcome::Copy;
        } else if sym == KEY_LOWER_X || sym == KEY_UPPER_X {
            return UrlOutcome::Cut;
        } else if sym == KEY_LOWER_V || sym == KEY_UPPER_V {
            return UrlOutcome::Paste;
        } else {
            return UrlOutcome::Ignored;
        }
    } else if !typed.is_empty() {
        url.insert(typed);
    } else {
        return UrlOutcome::Ignored;
    }
    UrlOutcome::Edited
}

} // verus!
