//! The glyph and icon atlases are filled by a shelf packer: rows ("shelves")
//! of similar height stacked from the top, each filled left to right, with a
//! one-pixel pad between neighbours so sampling never bleeds.

use vstd::prelude::*;

verus! {

/// Side length of each (square) atlas texture, in pixels.
pub const ATLAS_SIZE: u32 = 1024;

/// Empty pixels kept around every packed rectangle.
pub const PAD: u32 = 1;

#[derive(Clone, Copy, PartialEq, Eq, Structural, Debug, Hash)]
pub enum Icon {
    Home,
    Close,
    Selection,
    Top,
    Parent,
    Copy,
    Open,
    Terminal,
    Busy,
    Folder,
    File,
    Star,
    Pin,
}

/// One row of the atlas: it starts at `y`, is `h` pixels tall and is filled
/// up to (but not including) column `x`.
#[derive(Clone, Copy, PartialEq, Eq, Structural, Debug)]
pub struct Shelf {
    pub y: u32,
    pub h: u32,
    pub x: u32,
}

pub struct Packer {
    pub shelves: Vec<Shelf>,
    /// First row below every shelf.
    pub next_y: u32,
}

/// A `w`×`h` rectangle may go on shelf `s`: the shelf is at least as tall but
/// at most 8 pixels taller, and the row still has room for it plus its pad.
pub open spec fn shelf_fits(s: Shelf, w: u32, h: u32) -> bool {
    h <= s.h && h + 8 >= s.h && s.x + w + PAD <= ATLAS_SIZE
}

/// The pixel `(px, py)` is taken: it lies on a shelf's rows left of its fill
/// column.
pub open spec fn used(shelves: Seq<Shelf>, px: int, py: int) -> bool {
    exists|i: int|
        0 <= i < shelves.len() && #[trigger] shelves[i].y <= py < shelves[i].y + shelves[i].h
            && px < shelves[i].x
}

/// The pixel `(px, py)` lies in the `w`×`h` rectangle at `(x, y)`.
pub open spec fn in_rect(x: int, y: int, w: int, h: int, px: int, py: int) -> bool {
    x <= px < x + w && y <= py < y + h
}

/// What `pack(w, h)` does to shelves `s0` filled down to `n0`, leaving
/// `s1` and `n1` and answering `r`: the first shelf that fits takes the
/// rectangle; failing that a new shelf opens below the others; failing
/// that (or when the rectangle is wider than the atlas) nothing changes.
pub open spec fn packs(s0: Seq<Shelf>, n0: u32, s1: Seq<Shelf>, n1: u32, w: u32, h: u32, r: Option<(u32, u32)>) -> bool {
    match r {
        Some((x, y)) => {
            &&& w + 2 * PAD <= ATLAS_SIZE
            &&& {
                ||| exists|i: int|
                    0 <= i < s0.len() && #[trigger] shelf_fits(s0[i], w, h)
                        && (forall|j: int| 0 <= j < i ==> !shelf_fits(s0[j], w, h))
                        && x == s0[i].x && y == s0[i].y
                        && s1 == s0.update(i, Shelf { x: (x + w + PAD) as u32, ..s0[i] })
                        && n1 == n0
                ||| (forall|j: int| 0 <= j < s0.len() ==> !shelf_fits(s0[j], w, h))
                    && n0 + h + PAD <= ATLAS_SIZE && x == PAD && y == n0
                    && s1 == s0.push(Shelf { y: n0, h, x: (PAD + w + PAD) as u32 })
                    && n1 == n0 + h + PAD
            }
        },
        None => {
            &&& (w + 2 * PAD > ATLAS_SIZE || ((forall|j: int| 0 <= j < s0.len() ==> !shelf_fits(s0[j], w, h))
                && n0 + h + PAD > ATLAS_SIZE))
            &&& s1 == s0
            &&& n1 == n0
        },
    }
}

/// Packing `w`×`h` at `(x, y)` took the packer from `before` to `after`:
/// the rectangle lies inside the atlas with its pad, covers no pixel that
/// was taken before, and every one of its pixels is taken after.
pub open spec fn places(before: Packer, after: Packer, w: u32, h: u32, x: u32, y: u32) -> bool {
    &&& PAD <= x && x + w + PAD <= ATLAS_SIZE
    &&& PAD <= y && y + h + PAD <= ATLAS_SIZE
    &&& forall|px: int, py: int|
        #![trigger used(after.shelves@, px, py)]
        in_rect(x as int, y as int, w as int, h as int, px, py) ==> !used(before.shelves@, px, py) && used(
            after.shelves@,
            px,
            py,
        )
}

/// Every pixel taken in `before` is still taken in `after`.
pub open spec fn keeps_taken(before: Packer, after: Packer) -> bool {
    forall|px: int, py: int|
        #![trigger used(after.shelves@, px, py)]
        used(before.shelves@, px, py) ==> used(after.shelves@, px, py)
}

impl Packer {
    /// Shelves are stacked top to bottom without overlapping (keeping a pad
    /// row between them), all above `next_y`, and none is filled past the
    /// atlas edge.
    pub open spec fn wf(&self) -> bool {
        let s = self.shelves@;
        &&& PAD <= self.next_y <= ATLAS_SIZE
        &&& forall|i: int| 0 <= i < s.len() ==> #[trigger] s[i].y + s[i].h + PAD <= self.next_y
        &&& forall|i: int| 0 <= i < s.len() ==> PAD <= #[trigger] s[i].x <= ATLAS_SIZE
        &&& forall|i: int| 0 <= i < s.len() ==> PAD <= #[trigger] s[i].y
        &&& forall|i: int, j: int|
            0 <= i < j < s.len() ==> #[trigger] s[i].y + s[i].h + PAD <= #[trigger] s[j].y
    }

    pub fn new() -> (r: Packer)
        ensures
            r.wf(),
            r.shelves@.len() == 0,
            r.next_y == PAD,
    {
        Packer { shelves: Vec::new(), next_y: PAD }
    }

    /// Find room for a `w`×`h` rectangle and return its top-left corner:
    /// on the first shelf it fits, else on a new shelf below the others, else
    /// nowhere (None, and nothing changes).
    pub fn pack(&mut self, w: u32, h: u32) -> (r: Option<(u32, u32)>)
        requires
            old(self).wf(),
            w + 2 * PAD <= u32::MAX,
            w + 2 * PAD <= ATLAS_SIZE ==> old(self).next_y + h + PAD <= u32::MAX,
        ensures
            final(self).wf(),
            packs(old(self).shelves@, old(self).next_y, final(self).shelves@, final(self).next_y, w, h, r),
            r matches Some((x, y)) ==> places(*old(self), *final(self), w, h, x, y),
            keeps_taken(*old(self), *final(self)),
    {
        let ghost old_shelves = self.shelves@;
        if w + 2 * PAD > ATLAS_SIZE {
            return None;
        }
        let mut i: usize = 0;
        while i < self.shelves.len()
            invariant
                self.wf(),
                self.shelves@ == old_shelves,
                old_shelves == old(self).shelves@,
                self.next_y == old(self).next_y,
                w + 2 * PAD <= ATLAS_SIZE,
                i <= self.shelves@.len(),
                forall|j: int| 0 <= j < i ==> !shelf_fits(old_shelves[j], w, h),
            decreases self.shelves@.len() - i,
        {
            let shelf = self.shelves[i];
            proof {
                assert(old_shelves[i as int].y + old_shelves[i as int].h + PAD <= self.next_y);
            }
            if h <= shelf.h && h + 8 >= shelf.h && shelf.x + w + PAD <= ATLAS_SIZE {
                let pos = (shelf.x, shelf.y);
                self.shelves.set(i, Shelf { x: shelf.x + w + PAD, ..shelf });
                proof {
                    let ns = self.shelves@;
                    assert(shelf_fits(old_shelves[i as int], w, h));
                    assert(ns == old_shelves.update(
                        i as int,
                        Shelf { x: (shelf.x + w + PAD) as u32, ..old_shelves[i as int] },
                    ));
                    assert(ns[i as int].y == shelf.y && ns[i as int].h == shelf.h);
                    assert(PAD <= old_shelves[i as int].x && PAD <= old_shelves[i as int].y);
                    assert(0 <= i < old_shelves.len() && shelf_fits(old_shelves[i as int], w, h)
                        && (forall|j: int| 0 <= j < i ==> !shelf_fits(old_shelves[j], w, h))
                        && pos.0 == old_shelves[i as int].x && pos.1 == old_shelves[i as int].y);
                    assert forall|px: int, py: int|
                        used(old_shelves, px, py) implies #[trigger] used(ns, px, py) by {
                        let k = choose|k: int|
                            0 <= k < old_shelves.len() && #[trigger] old_shelves[k].y <= py
                                < old_shelves[k].y + old_shelves[k].h && px < old_shelves[k].x;
                        assert(ns[k].y <= py < ns[k].y + ns[k].h && px < ns[k].x);
                    }
                    assert forall|px: int, py: int|
                        #![trigger used(ns, px, py)]
                        in_rect(
                            shelf.x as int,
                            shelf.y as int,
                            w as int,
                            h as int,
                            px,
                            py,
                        ) implies !used(old_shelves, px, py) && used(ns, px, py) by {
                        assert(ns[i as int].y <= py < ns[i as int].y + ns[i as int].h && px
                            < ns[i as int].x);
                        if used(old_shelves, px, py) {
                            let k = choose|k: int|
                                0 <= k < old_shelves.len() && #[trigger] old_shelves[k].y <= py
                                    < old_shelves[k].y + old_shelves[k].h && px
                                    < old_shelves[k].x;
                            if k < i {
                                assert(old_shelves[k].y + old_shelves[k].h + PAD
                                    <= old_shelves[i as int].y);
                            } else if k > i {
                                assert(old_shelves[i as int].y + old_shelves[i as int].h + PAD
                                    <= old_shelves[k].y);
                            }
                        }
                    }
                    assert(self.wf()) by {
                        assert forall|a: int, b: int|
                            0 <= a < b < ns.len() implies #[trigger] ns[a].y + ns[a].h + PAD
                            <= #[trigger] ns[b].y by {
                            assert(old_shelves[a].y + old_shelves[a].h + PAD <= old_shelves[b].y);
                        }
                        assert forall|a: int| 0 <= a < ns.len() implies #[trigger] ns[a].y
                            + ns[a].h + PAD <= self.next_y by {
                            assert(old_shelves[a].y + old_shelves[a].h + PAD <= self.next_y);
                        }
                        assert forall|a: int| 0 <= a < ns.len() implies PAD <= #[trigger] ns[a].x
                            <= ATLAS_SIZE by {
                            assert(PAD <= old_shelves[a].x <= ATLAS_SIZE);
                        }
                        assert forall|a: int| 0 <= a < ns.len() implies PAD <= #[trigger] ns[a].y by {
                            assert(PAD <= old_shelves[a].y);
                        }
                    }
                }
                return Some(pos);
            }
            i = i + 1;
        }
        if self.next_y + h + PAD > ATLAS_SIZE {
            return None;
        }
        let shelf = Shelf { y: self.next_y, h, x: PAD + w + PAD };
        self.next_y = self.next_y + h + PAD;
        let pos = (PAD, shelf.y);
        self.shelves.push(shelf);
        proof {
            let ns = self.shelves@;
            let n = old_shelves.len() as int;
            assert(ns[n] == shelf);
            assert forall|px: int, py: int|
                used(old_shelves, px, py) implies #[trigger] used(ns, px, py) by {
                let k = choose|k: int|
                    0 <= k < old_shelves.len() && #[trigger] old_shelves[k].y <= py
                        < old_shelves[k].y + old_shelves[k].h && px < old_shelves[k].x;
                assert(ns[k] == old_shelves[k]);
            }
            assert forall|px: int, py: int|
                #![trigger used(ns, px, py)]
                in_rect(
                    PAD as int,
                    shelf.y as int,
                    w as int,
                    h as int,
                    px,
                    py,
                ) implies !used(old_shelves, px, py) && used(ns, px, py) by {
                assert(ns[n].y <= py < ns[n].y + ns[n].h && px < ns[n].x);
                if used(old_shelves, px, py) {
                    let k = choose|k: int|
                        0 <= k < old_shelves.len() && #[trigger] old_shelves[k].y <= py
                            < old_shelves[k].y + old_shelves[k].h && px < old_shelves[k].x;
                    assert(old_shelves[k].y + old_shelves[k].h + PAD <= old(self).next_y);
                }
            }
            assert(self.wf()) by {
                assert forall|a: int, b: int|
                    0 <= a < b < ns.len() implies #[trigger] ns[a].y + ns[a].h + PAD
                    <= #[trigger] ns[b].y by {
                    if b == n {
                        assert(old_shelves[a].y + old_shelves[a].h + PAD <= old(self).next_y);
                    } else {
                        assert(old_shelves[a].y + old_shelves[a].h + PAD <= old_shelves[b].y);
                    }
                }
                assert forall|a: int| 0 <= a < ns.len() implies #[trigger] ns[a].y + ns[a].h
                    + PAD <= self.next_y by {
                    if a < n {
                        assert(old_shelves[a].y + old_shelves[a].h + PAD <= old(self).next_y);
                    }
                }
                assert forall|a: int| 0 <= a < ns.len() implies PAD <= #[trigger] ns[a].x
                    <= ATLAS_SIZE by {
                    if a < n {
                        assert(PAD <= old_shelves[a].x <= ATLAS_SIZE);
                    }
                }
                assert forall|a: int| 0 <= a < ns.len() implies PAD <= #[trigger] ns[a].y by {
                    if a < n {
                        assert(PAD <= old_shelves[a].y);
                    }
                }
            }
        }
        Some(pos)
    }
}

/// Where a glyph bitmap goes in the atlas, and whether the atlas had to be
/// cleared to make room (every glyph cached before then is gone).
pub struct GlyphSlot {
    pub pos: Option<(u32, u32)>,
    pub reset: bool,
}

/// Find room for a `w`×`h` glyph bitmap. An empty bitmap needs none (it
/// sits at the origin). When the atlas is full it is cleared and the glyph
/// tried again, at most once per frame: `resets` counts this frame's
/// clears. `pos` is None when the glyph cannot be placed.
pub fn place_glyph(packer: &mut Packer, resets: &mut u32, w: u32, h: u32) -> (r: GlyphSlot)
    requires
        old(packer).wf(),
        w + 2 * PAD <= u32::MAX,
        h + 2 * PAD <= u32::MAX,
        w + 2 * PAD <= ATLAS_SIZE ==> old(packer).next_y + h + PAD <= u32::MAX,
    ensures
        final(packer).wf(),
        w == 0 || h == 0 ==> {
            &&& r.pos == Some((0u32, 0u32))
            &&& !r.reset
            &&& final(packer).shelves@ == old(packer).shelves@
            &&& final(packer).next_y == old(packer).next_y
            &&& *final(resets) == *old(resets)
        },
        w > 0 && h > 0 ==> if r.reset {
            &&& *old(resets) == 0
            &&& *final(resets) == 1
            &&& packs(old(packer).shelves@, old(packer).next_y, old(packer).shelves@, old(packer).next_y, w, h, None)
            &&& packs(Seq::empty(), PAD, final(packer).shelves@, final(packer).next_y, w, h, r.pos)
        } else {
            &&& *final(resets) == *old(resets)
            &&& packs(old(packer).shelves@, old(packer).next_y, final(packer).shelves@, final(packer).next_y, w, h, r.pos)
            &&& r.pos is None ==> *old(resets) >= 1
        },
{
    if w == 0 || h == 0 {
        return GlyphSlot { pos: Some((0, 0)), reset: false };
    }
    let first = packer.pack(w, h);
    if first.is_some() {
        return GlyphSlot { pos: first, reset: false };
    }
    if *resets >= 1 {
        return GlyphSlot { pos: None, reset: false };
    }
    *resets = *resets + 1;
    let ghost before = *packer;
    *packer = Packer::new();
    proof {
        assert(packer.shelves@ =~= Seq::<Shelf>::empty());
    }
    let pos = packer.pack(w, h);
    proof {
        assert(packs(before.shelves@, before.next_y, before.shelves@, before.next_y, w, h, None));
    }
    GlyphSlot { pos, reset: true }
}

/// Taken pixels are never released: a packer that keeps what `a` took and
/// then what that state took keeps what `a` took.
pub proof fn law_keeps_taken_trans(a: Packer, b: Packer, c: Packer)
    requires
        keeps_taken(a, b),
        keeps_taken(b, c),
    ensures
        keeps_taken(a, c),
{
    assert forall|px: int, py: int| #![trigger used(c.shelves@, px, py)] used(a.shelves@, px, py) implies used(
        c.shelves@,
        px,
        py,
    ) by {
        assert(used(b.shelves@, px, py));
    }
}

/// Rectangles handed out by the packer never overlap: one placed earlier
/// (from `p0` to `p1`) and one placed later (from `q`, which kept all that
/// `p1` took, to `q1`) share no pixel.
pub proof fn law_packed_rects_disjoint(
    p0: Packer,
    p1: Packer,
    w1: u32,
    h1: u32,
    x1: u32,
    y1: u32,
    q: Packer,
    q1: Packer,
    w2: u32,
    h2: u32,
    x2: u32,
    y2: u32,
)
    requires
        places(p0, p1, w1, h1, x1, y1),
        keeps_taken(p1, q),
        places(q, q1, w2, h2, x2, y2),
    ensures
        forall|px: int, py: int|
            !(in_rect(x1 as int, y1 as int, w1 as int, h1 as int, px, py) && in_rect(
                x2 as int,
                y2 as int,
                w2 as int,
                h2 as int,
                px,
                py,
            )),
{
    assert forall|px: int, py: int|
        !(in_rect(x1 as int, y1 as int, w1 as int, h1 as int, px, py) && in_rect(
            x2 as int,
            y2 as int,
            w2 as int,
            h2 as int,
            px,
            py,
        )) by {
        if in_rect(x1 as int, y1 as int, w1 as int, h1 as int, px, py) {
            assert(used(p1.shelves@, px, py));
            assert(used(q.shelves@, px, py));
            if in_rect(x2 as int, y2 as int, w2 as int, h2 as int, px, py) {
                assert(used(q1.shelves@, px, py));
            }
        }
    }
}

/// Start of the four-byte pixel that byte `i` belongs to.
pub open spec fn pixel_start(i: int) -> int {
    i - i % 4
}

/// A premultiplied RGBA buffer reduced to its coverage: in every complete
/// pixel the three colour bytes take the pixel's alpha, so the pixel is
/// white where opaque and a draw-time tint recolours it. Bytes after the
/// last complete pixel, and the alphas, stay as they are.
pub open spec fn whitened(s: Seq<u8>) -> Seq<u8> {
    Seq::new(
        s.len(),
        |i: int|
            if i % 4 != 3 && pixel_start(i) + 3 < s.len() {
                s[pixel_start(i) + 3]
            } else {
                s[i]
            },
    )
}

/// Whitens a monochrome icon's premultiplied RGBA pixels in place.
pub fn whiten(rgba: &mut Vec<u8>)
    ensures
        final(rgba)@ == whitened(old(rgba)@),
{
    let n = rgba.len();
    let ghost orig = rgba@;
    let mut p: usize = 0;
    while p <= n && n - p >= 4
        invariant
            rgba@.len() == n,
            orig.len() == n,
            orig == old(rgba)@,
            p <= n,
            p % 4 == 0,
            forall|i: int| 0 <= i < p ==> rgba@[i] == #[trigger] whitened(orig)[i],
            forall|i: int| p <= i < n ==> rgba@[i] == #[trigger] orig[i],
        decreases n - p,
    {
        let a = rgba[p + 3];
        rgba.set(p, a);
        rgba.set(p + 1, a);
        rgba.set(p + 2, a);
        proof {
            assert forall|i: int| p <= i < p + 4 implies rgba@[i] == #[trigger] whitened(orig)[i] by {
                assert(pixel_start(i) == p as int) by {
                    assert(i % 4 == i - p) by (nonlinear_arith)
                        requires p % 4 == 0, p <= i < p + 4;
                }
            }
        }
        p = p + 4;
    }
    proof {
        assert forall|i: int| p <= i < n implies orig[i] == #[trigger] whitened(orig)[i] by {
            assert(pixel_start(i) + 3 >= n) by (nonlinear_arith)
                requires p % 4 == 0, p <= i < n, n < p + 4;
        }
        assert(rgba@ =~= whitened(orig));
    }
}

/// What `pack` kept taken along a run of packer states stays taken from
/// any state of the run to any later one.
pub proof fn lemma_keeps_taken_along(ps: Seq<Packer>, a: int, b: int)
    requires
        0 <= a <= b < ps.len(),
        forall|k: int| 0 <= k < ps.len() - 1 ==> keeps_taken(#[trigger] ps[k], ps[k + 1]),
    ensures
        keeps_taken(ps[a], ps[b]),
    decreases b - a,
{
    if a < b {
        lemma_keeps_taken_along(ps, a, b - 1);
        law_keeps_taken_trans(ps[a], ps[b - 1], ps[b]);
    }
}

/// Pixel `(px, py)` lies in the rectangle `(x, y, w, h)` a call handed out.
pub open spec fn covers(placed: Option<(u32, u32, u32, u32)>, px: int, py: int) -> bool {
    match placed {
        Some((x, y, w, h)) => in_rect(x as int, y as int, w as int, h as int, px, py),
        None => false,
    }
}

/// Over any run of `pack` calls, every rectangle handed out lies inside
/// the atlas, one pixel clear of its edges, and no two of them overlap.
/// `ps[k]` is the packer before call `k`, `ps[k + 1]` after it; `placed[k]`
/// is `(x, y, w, h)` where call `k` returned `Some((x, y))` for a `w`×`h`
/// request.
pub proof fn law_packed_run_disjoint(ps: Seq<Packer>, placed: Seq<Option<(u32, u32, u32, u32)>>)
    requires
        ps.len() == placed.len() + 1,
        forall|k: int| 0 <= k < placed.len() ==> keeps_taken(#[trigger] ps[k], ps[k + 1]),
        forall|k: int|
            0 <= k < placed.len() ==> match #[trigger] placed[k] {
                Some((x, y, w, h)) => places(ps[k], ps[k + 1], w, h, x, y),
                None => true,
            },
    ensures
        forall|k: int|
            0 <= k < placed.len() ==> match #[trigger] placed[k] {
                Some((x, y, w, h)) => PAD <= x && x + w + PAD <= ATLAS_SIZE && PAD <= y && y + h + PAD
                    <= ATLAS_SIZE,
                None => true,
            },
        forall|i: int, j: int, px: int, py: int|
            0 <= i < j < placed.len() ==> !(#[trigger] covers(placed[i], px, py) && #[trigger] covers(
                placed[j],
                px,
                py,
            )),
{
    assert forall|k: int| 0 <= k < ps.len() - 1 implies keeps_taken(#[trigger] ps[k], ps[k + 1]) by {
        assert(keeps_taken(ps[k], ps[k + 1]));
    }
    assert forall|i: int, j: int, px: int, py: int|
        0 <= i < j < placed.len() implies !(#[trigger] covers(placed[i], px, py) && #[trigger] covers(
        placed[j],
        px,
        py,
    )) by {
        if placed[i] is Some && placed[j] is Some {
            let (x1, y1, w1, h1) = placed[i].unwrap();
            let (x2, y2, w2, h2) = placed[j].unwrap();
            lemma_keeps_taken_along(ps, i + 1, j);
            law_packed_rects_disjoint(ps[i], ps[i + 1], w1, h1, x1, y1, ps[j], ps[j + 1], w2, h2, x2, y2);
        }
    }
}

} // verus!
