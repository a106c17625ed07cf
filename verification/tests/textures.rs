use kexplore::textures::{PreviewTextures, FRAMES_IN_FLIGHT};

#[test]
fn ids_are_handed_out_in_order_then_reused() {
    let mut t: PreviewTextures<&str> = PreviewTextures::new();
    assert_eq!(t.insert("a"), 0);
    assert_eq!(t.insert("b"), 1);
    assert_eq!(t.get(1), Some(&"b"));
    t.retire_unused(&[1], 5);
    assert_eq!(t.get(0), None);
    assert_eq!(t.insert("c"), 0);
    assert_eq!(t.get(0), Some(&"c"));
    assert_eq!(t.len(), 2);
    assert_eq!(t.get(7), None);
}

#[test]
fn live_slots_are_kept() {
    let mut t: PreviewTextures<u32> = PreviewTextures::new();
    for k in 0..4 {
        t.insert(k * 10);
    }
    t.retire_unused(&[3, 1, 9], 1);
    assert_eq!(t.get(0), None);
    assert_eq!(t.get(1), Some(&10));
    assert_eq!(t.get(2), None);
    assert_eq!(t.get(3), Some(&30));
}

#[test]
fn retired_textures_wait_for_frames_in_flight() {
    assert_eq!(FRAMES_IN_FLIGHT, 2);
    let mut t: PreviewTextures<u32> = PreviewTextures::new();
    t.insert(7);
    t.insert(8);
    t.retire_unused(&[], 10);
    assert!(t.take_expired(10).is_empty());
    assert!(t.take_expired(12).is_empty());
    assert_eq!(t.take_expired(13), vec![7, 8]);
    assert!(t.take_expired(100).is_empty());
    // A frame counter behind the stamp never releases.
    t.insert(9);
    t.retire_unused(&[], 50);
    assert!(t.take_expired(3).is_empty());
    assert_eq!(t.take_expired(53), vec![9]);
}

#[test]
fn take_all_returns_everything() {
    let mut t: PreviewTextures<u32> = PreviewTextures::new();
    t.insert(1);
    t.insert(2);
    t.insert(3);
    t.retire_unused(&[0, 2], 4);
    let all = t.take_all();
    assert_eq!(all, vec![1, 3, 2]);
    assert_eq!(t.len(), 0);
    assert_eq!(t.insert(5), 0);
}
