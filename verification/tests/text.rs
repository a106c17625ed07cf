use kexplore::text::{place_glyph, whiten, Packer, Shelf, ATLAS_SIZE, PAD};

fn overlap(a: (u32, u32, u32, u32), b: (u32, u32, u32, u32)) -> bool {
    a.0 < b.0 + b.2 && b.0 < a.0 + a.2 && a.1 < b.1 + b.3 && b.1 < a.1 + a.3
}

#[test]
fn first_rect_goes_top_left_inside_the_pad() {
    let mut p = Packer::new();
    assert_eq!(p.pack(10, 20), Some((PAD, PAD)));
    assert_eq!(p.shelves, vec![Shelf { y: 1, h: 20, x: 12 }]);
    assert_eq!(p.next_y, 22);
}

#[test]
fn similar_heights_share_a_shelf() {
    let mut p = Packer::new();
    assert_eq!(p.pack(10, 20), Some((1, 1)));
    // 8 shorter still fits the 20-high shelf.
    assert_eq!(p.pack(5, 12), Some((12, 1)));
    // 9 shorter does not: a new shelf opens below.
    assert_eq!(p.pack(5, 11), Some((1, 22)));
    // Taller than the shelf: new shelf.
    assert_eq!(p.pack(5, 21), Some((1, 34)));
}

#[test]
fn too_wide_or_full_is_refused_unchanged() {
    let mut p = Packer::new();
    assert_eq!(p.pack(ATLAS_SIZE - 1, 1), None);
    assert!(p.shelves.is_empty());
    assert_eq!(p.pack(ATLAS_SIZE - 2, 1), Some((1, 1)));
    let mut q = Packer::new();
    assert_eq!(q.pack(10, ATLAS_SIZE - 2), Some((1, 1)));
    assert_eq!(q.pack(10, 30), None);
    assert_eq!(q.next_y, ATLAS_SIZE);
}

#[test]
fn packed_rects_never_overlap() {
    let mut p = Packer::new();
    let mut rects = Vec::new();
    for k in 0..400u32 {
        let (w, h) = (3 + (k * 7) % 40, 5 + (k * 13) % 30);
        if let Some((x, y)) = p.pack(w, h) {
            assert!(x + w + PAD <= ATLAS_SIZE && y + h + PAD <= ATLAS_SIZE);
            rects.push((x, y, w, h));
        }
    }
    assert!(rects.len() > 100);
    for i in 0..rects.len() {
        for j in i + 1..rects.len() {
            assert!(!overlap(rects[i], rects[j]), "{:?} {:?}", rects[i], rects[j]);
        }
    }
}

#[test]
fn empty_glyphs_need_no_room() {
    let mut p = Packer::new();
    let mut resets = 0u32;
    let s = place_glyph(&mut p, &mut resets, 0, 12);
    assert_eq!(s.pos, Some((0, 0)));
    assert!(!s.reset);
    assert!(p.shelves.is_empty());
}

#[test]
fn full_atlas_resets_once_per_frame() {
    let mut p = Packer::new();
    assert!(p.pack(10, ATLAS_SIZE - 2).is_some());
    let mut resets = 0u32;
    let s = place_glyph(&mut p, &mut resets, 10, 30);
    assert!(s.reset);
    assert_eq!(s.pos, Some((1, 1)));
    assert_eq!(resets, 1);
    // Fill again: this frame already reset, so the glyph is dropped.
    let mut q = Packer::new();
    assert!(q.pack(10, ATLAS_SIZE - 2).is_some());
    let t = place_glyph(&mut q, &mut resets, 10, 30);
    assert!(!t.reset);
    assert_eq!(t.pos, None);
    assert_eq!(resets, 1);
}

#[test]
fn glyph_that_fits_is_packed_normally() {
    let mut p = Packer::new();
    let mut resets = 0u32;
    let s = place_glyph(&mut p, &mut resets, 8, 14);
    assert_eq!(s.pos, Some((1, 1)));
    assert!(!s.reset);
    assert_eq!(resets, 0);
}

#[test]
fn whitening_copies_alpha_into_colour() {
    let mut px = vec![10, 20, 30, 40, 1, 2, 3, 255, 7, 8];
    whiten(&mut px);
    assert_eq!(px, vec![40, 40, 40, 40, 255, 255, 255, 255, 7, 8]);
    let mut empty: Vec<u8> = vec![];
    whiten(&mut empty);
    assert!(empty.is_empty());
}
