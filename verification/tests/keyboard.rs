use kexplore::keyboard::{typed_text, HeldKey, KeyRepeat};

#[test]
fn defaults_until_the_compositor_says() {
    let r = KeyRepeat::new();
    assert_eq!((r.rate, r.delay_ms, r.held), (25, 400, None));
    assert_eq!(r.deadline(), None);
}

#[test]
fn press_arms_the_first_repeat_after_the_delay() {
    let mut r = KeyRepeat::new();
    r.press(30, true, 1_000);
    assert_eq!(r.held, Some(HeldKey { key: 30, next: 401_000 }));
    assert_eq!(r.deadline(), Some(401_000));
    // Keys the keymap does not repeat leave the repeat alone.
    r.press(42, false, 2_000);
    assert_eq!(r.held, Some(HeldKey { key: 30, next: 401_000 }));
}

#[test]
fn due_repeats_are_counted_and_rescheduled() {
    let mut r = KeyRepeat::new();
    r.press(30, true, 0);
    assert_eq!(r.take_due(399_999), 0);
    // 25/s: every 40 ms.
    assert_eq!(r.take_due(400_000), 1);
    assert_eq!(r.deadline(), Some(440_000));
    assert_eq!(r.take_due(520_000), 3);
    assert_eq!(r.deadline(), Some(560_000));
}

#[test]
fn release_and_leave_stop_repeating() {
    let mut r = KeyRepeat::new();
    r.press(30, true, 0);
    r.release(31);
    assert!(r.held.is_some());
    r.release(30);
    assert!(r.held.is_none());
    r.press(30, true, 0);
    r.leave();
    assert!(r.held.is_none());
    assert_eq!(r.take_due(10_000_000), 0);
}

#[test]
fn zero_rate_disables_repeat() {
    let mut r = KeyRepeat::new();
    r.set_info(0, -5);
    assert_eq!((r.rate, r.delay_ms), (0, 0));
    r.press(30, true, 0);
    assert!(r.held.is_none());
    r.set_info(-1, 200);
    assert_eq!((r.rate, r.delay_ms), (0, 200));
}

#[test]
fn typed_text_drops_control_characters() {
    assert_eq!(typed_text("a"), "a");
    assert_eq!(typed_text("\r"), "");
    assert_eq!(typed_text("\u{1b}x\u{7f}\u{85}é"), "xé");
    assert_eq!(typed_text("\u{3}"), "");
}
