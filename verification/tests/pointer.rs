use kexplore::pointer::{Buttons, BTN_LEFT, BTN_MIDDLE};

#[test]
fn left_button_edges_last_one_frame() {
    let mut b = Buttons::new();
    b.button(BTN_LEFT, true);
    assert!(b.is_down && b.pressed && !b.released);
    b.end_frame();
    assert!(b.is_down && !b.pressed);
    b.button(BTN_LEFT, false);
    assert!(!b.is_down && b.released);
    b.end_frame();
    assert_eq!(b, Buttons::new());
}

#[test]
fn middle_button_and_leave() {
    let mut b = Buttons::new();
    b.button(BTN_MIDDLE, true);
    assert!(b.middle_down && b.middle_pressed && !b.is_down);
    b.button(BTN_LEFT, true);
    b.leave();
    assert!(!b.middle_down && !b.is_down && b.pressed && b.middle_pressed);
    b.button(BTN_MIDDLE, false);
    assert!(!b.middle_down);
    let before = b;
    b.button(273, true);
    assert_eq!(b, before);
}
