//! Client-side key repeat. Wayland leaves repeating to the client: the
//! compositor announces a rate and a delay, and while a repeating key is
//! held the client emits a synthetic press each time a repeat falls due.
//! Times are microseconds on the caller's monotonic clock.

use vstd::prelude::*;
use crate::handlers::{chars_of, push_char};

verus! {

/// The held key that repeats, and when its next repeat is due.
#[derive(Clone, Copy, PartialEq, Eq, Structural, Debug)]
pub struct HeldKey {
    /// evdev keycode (xkb keycode - 8).
    pub key: u32,
    pub next: u64,
}

/// Repeat settings (repeats per second, initial delay in ms) and the key
/// currently repeating, if any.
#[derive(Clone, Copy, PartialEq, Eq, Structural, Debug)]
pub struct KeyRepeat {
    pub rate: u32,
    pub delay_ms: u32,
    pub held: Option<HeldKey>,
}

/// Microseconds between repeats at `rate` per second.
pub open spec fn repeat_interval(rate: u32) -> int {
    1000000int / (if rate == 0 {
        1
    } else {
        rate as int
    })
}

impl KeyRepeat {
    /// Until the compositor says otherwise: 25 per second after 400 ms.
    pub fn new() -> (r: KeyRepeat)
        ensures
            r.rate == 25,
            r.delay_ms == 400,
            r.held is None,
    {
        KeyRepeat { rate: 25, delay_ms: 400, held: None }
    }

    /// The compositor's `repeat_info`: negative values count as zero (a zero
    /// rate turns repeating off).
    pub fn set_info(&mut self, rate: i32, delay: i32)
        ensures
            final(self).rate == (if rate < 0 {
                0
            } else {
                rate
            }),
            final(self).delay_ms == (if delay < 0 {
                0
            } else {
                delay
            }),
            final(self).held == old(self).held,
    {
        self.rate = if rate < 0 {
            0
        } else {
            rate as u32
        };
        self.delay_ms = if delay < 0 {
            0
        } else {
            delay as u32
        };
    }

    /// Key `key` went down at `now`; `repeats` says whether the keymap
    /// repeats it. It becomes the repeating key, first due after the delay,
    /// when repeating is on and the key repeats.
    pub fn press(&mut self, key: u32, repeats: bool, now: u64)
        requires
            now + old(self).delay_ms * 1000 <= u64::MAX,
        ensures
            final(self).rate == old(self).rate,
            final(self).delay_ms == old(self).delay_ms,
            final(self).held == (if old(self).rate > 0 && repeats {
                Some(HeldKey { key, next: (now + old(self).delay_ms * 1000) as u64 })
            } else {
                old(self).held
            }),
    {
        if self.rate > 0 && repeats {
            self.held = Some(HeldKey { key, next: now + (self.delay_ms as u64) * 1000 });
        }
    }

    /// Key `key` went up: it stops repeating (another held key keeps on).
    pub fn release(&mut self, key: u32)
        ensures
            final(self).rate == old(self).rate,
            final(self).delay_ms == old(self).delay_ms,
            final(self).held == (if old(self).held matches Some(h) && h.key == key {
                None
            } else {
                old(self).held
            }),
    {
        if let Some(h) = self.held {
            if h.key == key {
                self.held = None;
            }
        }
    }

    /// Keyboard focus left the window: nothing repeats.
    pub fn leave(&mut self)
        ensures
            final(self).rate == old(self).rate,
            final(self).delay_ms == old(self).delay_ms,
            final(self).held is None,
    {
        self.held = None;
    }

    /// When the next repeat is due, if a key is repeating.
    pub fn deadline(&self) -> (r: Option<u64>)
        ensures
            r == (match self.held {
                Some(h) => Some(h.next),
                None => None,
            }),
    {
        match self.held {
            Some(h) => Some(h.next),
            None => None,
        }
    }

    /// How many repeats have fallen due by `now` (the caller emits one
    /// synthetic press for each); the next deadline moves past `now`.
    pub fn take_due(&mut self, now: u64) -> (count: u64)
        requires
            now + repeat_interval(old(self).rate) <= u64::MAX,
            old(self).held matches Some(h) && h.next <= now ==> old(self).rate <= 1000000,
        ensures
            final(self).rate == old(self).rate,
            final(self).delay_ms == old(self).delay_ms,
            match old(self).held {
                Some(h) if old(self).rate > 0 && h.next <= now => {
                    let interval = repeat_interval(old(self).rate);
                    &&& count == (now - h.next) / interval + 1
                    &&& final(self).held == Some(HeldKey { key: h.key, next: (h.next + count * interval) as u64 })
                    &&& now < h.next + count * interval
                },
                _ => count == 0 && final(self).held == old(self).held,
            },
    {
        if self.rate == 0 {
            return 0;
        }
        let h = match self.held {
            Some(h) => h,
            None => return 0,
        };
        if h.next > now {
            return 0;
        }
        let interval: u64 = 1000000u64 / (self.rate as u64);
        proof {
            assert(interval >= 1) by (nonlinear_arith)
                requires
                    interval == 1000000int / (self.rate as int),
                    1 <= self.rate <= 1000000,
            ;
        }
        let mut next = h.next;
        let mut count: u64 = 0;
        while next <= now
            invariant
                interval == repeat_interval(self.rate),
                interval >= 1,
                h.next <= now,
                now + interval <= u64::MAX,
                next <= now + interval,
                next == h.next + count * interval,
                count <= next - h.next,
                count > 0 ==> h.next + (count - 1) * interval <= now,
            decreases now + interval - next,
        {
            proof {
                assert((count + 1) * interval == count * interval + interval) by (nonlinear_arith);
            }
            next = next + interval;
            count = count + 1;
        }
        proof {
            let q = count - 1;
            let x = now - h.next;
            let r = x - q * interval;
            assert(count * interval == q * interval + interval) by (nonlinear_arith)
                requires
                    q == count - 1,
            ;
            vstd::arithmetic::div_mod::lemma_fundamental_div_mod_converse(x, interval as int, q, r);
        }
        self.held = Some(HeldKey { key: h.key, next });
        count
    }
}

/// Control characters: Unicode general category Cc, which is exactly
/// U+0000–U+001F and U+007F–U+009F.
pub open spec fn control_char(c: char) -> bool {
    (c as u32) <= 0x1f || (0x7f <= (c as u32) && (c as u32) <= 0x9f)
}

/// Whether `c` is in general category Cc (what `char::is_control` tests).
fn char_is_control(c: char) -> (r: bool)
    ensures
        r == control_char(c),
{
    let u = c as u32;
    u <= 0x1f || (0x7f <= u && u <= 0x9f)
}

/// `s` without its control characters, the rest in order.
pub open spec fn without_controls(s: Seq<char>) -> Seq<char>
    decreases s.len(),
{
    if s.len() == 0 {
        Seq::empty()
    } else if control_char(s.last()) {
        without_controls(s.drop_last())
    } else {
        without_controls(s.drop_last()).push(s.last())
    }
}

/// The text a key press types: what the keymap reports for it with control
/// characters (Return, Escape, ^C, ...) removed.
pub fn typed_text(utf8: &str) -> (r: String)
    ensures
        r@ == without_controls(utf8@),
{
    let cs = chars_of(utf8);
    let mut out = String::new();
    let mut k: usize = 0;
    proof {
        assert(cs@.take(0) =~= Seq::<char>::empty());
    }
    while k < cs.len()
        invariant
            k <= cs@.len(),
            out@ == without_controls(cs@.take(k as int)),
        decreases cs@.len() - k,
    {
        proof {
            assert(cs@.take(k + 1).drop_last() =~= cs@.take(k as int));
        }
        let c = cs[k];
        if !char_is_control(c) {
            push_char(&mut out, c);
        }
        k = k + 1;
    }
    proof {
        assert(cs@.take(cs@.len() as int) =~= cs@);
    }
    out
}

} // verus!
