//! Pointer buttons as the UI sees them in one iteration of the event loop:
//! whether a button is held, and whether it went down or up since the
//! previous iteration. Positions and wheel motion are floating point and
//! stay with the caller.

use vstd::prelude::*;

verus! {

/// Evdev code of the left mouse button.
pub const BTN_LEFT: u32 = 272;

/// Evdev code of the middle mouse button.
pub const BTN_MIDDLE: u32 = 274;

#[derive(Clone, Copy, PartialEq, Eq, Structural, Debug)]
pub struct Buttons {
    /// The left button is held.
    pub is_down: bool,
    /// The left button went down this iteration.
    pub pressed: bool,
    /// The left button went up this iteration.
    pub released: bool,
    /// The middle button is held (canvas pan).
    pub middle_down: bool,
    /// The middle button went down this iteration.
    pub middle_pressed: bool,
}

impl Buttons {
    /// No button held, nothing happened yet.
    pub fn new() -> (r: Buttons)
        ensures
            r == (Buttons {
                is_down: false,
                pressed: false,
                released: false,
                middle_down: false,
                middle_pressed: false,
            }),
    {
        Buttons { is_down: false, pressed: false, released: false, middle_down: false, middle_pressed: false }
    }

    /// Button `code` went down (`down`) or up. Only the left and middle
    /// buttons are tracked; releasing the middle button records no edge.
    pub fn button(&mut self, code: u32, down: bool)
        ensures
            code == BTN_LEFT && down ==> *final(self) == (Buttons {
                is_down: true,
                pressed: true,
                ..*old(self)
            }),
            code == BTN_LEFT && !down ==> *final(self) == (Buttons {
                is_down: false,
                released: true,
                ..*old(self)
            }),
            code == BTN_MIDDLE && down ==> *final(self) == (Buttons {
                middle_down: true,
                middle_pressed: true,
                ..*old(self)
            }),
            code == BTN_MIDDLE && !down ==> *final(self) == (Buttons { middle_down: false, ..*old(self) }),
            code != BTN_LEFT && code != BTN_MIDDLE ==> *final(self) == *old(self),
    {
        if code == BTN_LEFT {
            if down {
                self.is_down = true;
                self.pressed = true;
            } else {
                self.is_down = false;
                self.released = true;
            }
        } else if code == BTN_MIDDLE {
            if down {
                self.middle_down = true;
                self.middle_pressed = true;
            } else {
                self.middle_down = false;
            }
        }
    }

    /// The pointer left the window: no button counts as held any more (the
    /// edges already recorded stay for this iteration).
    pub fn leave(&mut self)
        ensures
            *final(self) == (Buttons { is_down: false, middle_down: false, ..*old(self) }),
    {
        self.is_down = false;
        self.middle_down = false;
    }

    /// The iteration's input has been handled: the edges are cleared, the
    /// held state carries over.
    pub fn end_frame(&mut self)
        ensures
            *final(self) == (Buttons {
                pressed: false,
                released: false,
                middle_pressed: false,
                ..*old(self)
            }),
    {
        self.pressed = false;
        self.released = false;
        self.middle_pressed = false;
    }
}

} // verus!
