//! Renderer vocabulary shared by the draw lists and the frame loop: colors,
//! the texture slots a draw may sample, the descriptor sets bound for them,
//! and the phases a frame is recorded in.

use vstd::prelude::*;

verus! {

#[verifier::external_type_specification]
#[verifier::external_body]
pub struct ExDescriptorSet(ash::vk::DescriptorSet);

/// A straight-alpha RGBA8 color.
#[derive(Clone, Copy, Debug, PartialEq)]
pub struct Rgba(pub [u8; 4]);

impl Rgba {
    /// Opaque white.
    pub fn white() -> (r: Rgba)
        ensures
            r.0@ == seq![255u8, 255u8, 255u8, 255u8],
    {
        let r = Rgba([255, 255, 255, 255]);
        assert(r.0@ =~= seq![255u8, 255u8, 255u8, 255u8]);
        r
    }
}

/// A texture a draw may sample.
#[derive(Clone, Copy, PartialEq, Eq, Structural, Debug)]
pub enum TexSlot {
    /// The glyph atlas.
    Atlas,
    /// The (colour-capable) icon atlas.
    Icons,
    /// An image-preview texture, by its id in the preview table.
    Preview(u32),
    /// Offscreen canvas texture, composited by the overlay pass.
    Scene,
    /// Blurred toolbar band.
    Blur,
}

/// Descriptor sets for each slot a draw list may reference. Missing slots
/// fall back to the atlas (harmless: nothing meaningful samples them).
#[derive(Clone, Copy)]
pub struct TexSets<'a> {
    pub atlas: ash::vk::DescriptorSet,
    pub icons: Option<ash::vk::DescriptorSet>,
    /// Preview textures by id (retired ids hold the atlas).
    pub previews: &'a [ash::vk::DescriptorSet],
    pub scene: Option<ash::vk::DescriptorSet>,
    pub blur: Option<ash::vk::DescriptorSet>,
}

/// `set`, or the atlas's when the slot has none.
pub open spec fn or_atlas(set: Option<ash::vk::DescriptorSet>, atlas: ash::vk::DescriptorSet) -> ash::vk::DescriptorSet {
    match set {
        Some(s) => s,
        None => atlas,
    }
}

impl<'a> TexSets<'a> {
    /// The descriptor set bound for draws that sample `slot`.
    pub fn get(&self, slot: TexSlot) -> (r: ash::vk::DescriptorSet)
        ensures
            r == match slot {
                TexSlot::Atlas => self.atlas,
                TexSlot::Icons => or_atlas(self.icons, self.atlas),
                TexSlot::Preview(id) => if (id as int) < self.previews@.len() {
                    self.previews@[id as int]
                } else {
                    self.atlas
                },
                TexSlot::Scene => or_atlas(self.scene, self.atlas),
                TexSlot::Blur => or_atlas(self.blur, self.atlas),
            },
    {
        let pick = match slot {
            TexSlot::Atlas => None,
            TexSlot::Icons => self.icons,
            TexSlot::Preview(id) => if (id as usize) < self.previews.len() {
                Some(self.previews[id as usize])
            } else {
                None
            },
            TexSlot::Scene => self.scene,
            TexSlot::Blur => self.blur,
        };
        match pick {
            Some(s) => s,
            None => self.atlas,
        }
    }
}

/// A run of consecutive vertices drawn with one texture bound.
#[derive(Clone, Copy, PartialEq, Eq, Structural, Debug)]
pub struct DrawRange {
    pub first: u32,
    pub count: u32,
    pub tex: TexSlot,
}

/// How a draw list's vertices split into runs by texture: the runs tile the
/// vertices in order, and new vertices join the last run.
pub struct DrawRanges {
    ranges: Vec<DrawRange>,
}

/// Runs that start at vertex 0 and each begin where the previous one ends.
pub open spec fn tiles(r: Seq<DrawRange>) -> bool {
    &&& r.len() >= 1
    &&& r[0].first == 0
    &&& forall|k: int| 1 <= k < r.len() ==> #[trigger] r[k].first == r[k - 1].first + r[k - 1].count
}

impl DrawRanges {
    pub closed spec fn view(&self) -> Seq<DrawRange> {
        self.ranges@
    }

    /// Vertices covered so far.
    pub open spec fn total(&self) -> int {
        self@.last().first + self@.last().count
    }

    pub open spec fn wf(&self) -> bool {
        tiles(self@)
    }

    /// One empty run sampling the atlas.
    pub fn new() -> (r: DrawRanges)
        ensures
            r@ == seq![DrawRange { first: 0, count: 0, tex: TexSlot::Atlas }],
            r.wf(),
    {
        let mut ranges: Vec<DrawRange> = Vec::new();
        ranges.push(DrawRange { first: 0, count: 0, tex: TexSlot::Atlas });
        proof {
            assert(ranges@ =~= seq![DrawRange { first: 0, count: 0, tex: TexSlot::Atlas }]);
        }
        DrawRanges { ranges }
    }

    /// Make the next vertices sample `tex`: an empty last run is retargeted,
    /// a non-empty one is closed and a new run starts where it ends.
    pub fn require_tex(&mut self, tex: TexSlot)
        requires
            old(self).wf(),
            old(self).total() <= u32::MAX,
        ensures
            final(self).wf(),
            final(self).total() == old(self).total(),
            final(self)@.last().tex == tex,
            final(self)@.last().count == 0 || final(self)@ == old(self)@,
            ({
                let o = old(self)@;
                let cur = o.last();
                if cur.tex == tex {
                    final(self)@ == o
                } else if cur.count == 0 {
                    final(self)@ == o.update(o.len() - 1, DrawRange { tex, ..cur })
                } else {
                    final(self)@ == o.push(DrawRange { first: (cur.first + cur.count) as u32, count: 0, tex })
                }
            }),
    {
        let n = self.ranges.len();
        let cur = self.ranges[n - 1];
        if cur.tex != tex {
            if cur.count == 0 {
                self.ranges.set(n - 1, DrawRange { tex, ..cur });
                proof {
                    let o = old(self)@;
                    let s = self@;
                    assert forall|k: int| 1 <= k < s.len() implies #[trigger] s[k].first == s[k - 1].first
                        + s[k - 1].count by {
                        assert(o[k].first == o[k - 1].first + o[k - 1].count);
                    }
                }
            } else {
                let first = cur.first + cur.count;
                self.ranges.push(DrawRange { first, count: 0, tex });
                proof {
                    let o = old(self)@;
                    let s = self@;
                    assert forall|k: int| 1 <= k < s.len() implies #[trigger] s[k].first == s[k - 1].first
                        + s[k - 1].count by {
                        if k < o.len() {
                            assert(o[k].first == o[k - 1].first + o[k - 1].count);
                        }
                    }
                }
            }
        }
    }

    /// `n` more vertices join the last run.
    pub fn add(&mut self, n: u32)
        requires
            old(self).wf(),
            old(self).total() + n <= u32::MAX,
        ensures
            final(self).wf(),
            final(self).total() == old(self).total() + n,
            ({
                let o = old(self)@;
                let cur = o.last();
                final(self)@ == o.update(o.len() - 1, DrawRange { count: (cur.count + n) as u32, ..cur })
            }),
    {
        let k = self.ranges.len() - 1;
        let cur = self.ranges[k];
        self.ranges.set(k, DrawRange { count: cur.count + n, ..cur });
        proof {
            let o = old(self)@;
            let s = self@;
            assert forall|j: int| 1 <= j < s.len() implies #[trigger] s[j].first == s[j - 1].first + s[j - 1].count by {
                assert(o[j].first == o[j - 1].first + o[j - 1].count);
            }
        }
    }

    /// The runs, in vertex order.
    pub fn ranges(&self) -> (r: &Vec<DrawRange>)
        ensures
            r@ == self@,
    {
        &self.ranges
    }
}

/// Runs tile the vertices: run `k` starts where the earlier runs end, so
/// no vertex is drawn twice and none is skipped.
pub proof fn law_ranges_tile(r: Seq<DrawRange>, j: int, k: int)
    requires
        tiles(r),
        0 <= j < k < r.len(),
    ensures
        r[j].first + r[j].count <= r[k].first,
    decreases k - j,
{
    if k > j + 1 {
        law_ranges_tile(r, j, k - 1);
        assert(r[k].first == r[k - 1].first + r[k - 1].count);
    } else {
        assert(r[k].first == r[k - 1].first + r[k - 1].count);
    }
}

/// `p` is a power of two.
pub open spec fn is_pow2(p: nat) -> bool
    decreases p,
{
    if p <= 1 {
        p == 1
    } else {
        p % 2 == 0 && is_pow2(p / 2)
    }
}

/// `u64::next_power_of_two`: the least power of two that is at least `n`.
fn next_power_of_two(n: u64) -> (p: u64)
    requires
        n <= 0x8000_0000_0000_0000,
    ensures
        p >= n,
        is_pow2(p as nat),
        p == 1 || p / 2 < n,
{
    let mut p: u64 = 1;
    while p < n
        invariant
            n <= 0x8000_0000_0000_0000,
            is_pow2(p as nat),
            p == 1 || p / 2 < n,
        decreases (if p < n {
            n - p
        } else {
            0
        }),
    {
        proof {
            assert((2 * p) as nat / 2 == p as nat);
            assert(is_pow2((2 * p) as nat));
        }
        p = p * 2;
    }
    p
}

/// A host buffer of `current` bytes that must hold `needed`: None when it
/// already does, else the size to recreate it with (the next power of two,
/// so growth is geometric).
pub fn grown_size(needed: u64, current: u64) -> (r: Option<u64>)
    requires
        needed <= 0x8000_0000_0000_0000,
    ensures
        needed <= current ==> r is None,
        needed > current ==> (r matches Some(p) && p >= needed && is_pow2(p as nat) && (p == 1 || p / 2 < needed)),
{
    if needed > current {
        Some(next_power_of_two(needed))
    } else {
        None
    }
}

/// The number of vertices in the draw lists before list `k`.
pub open spec fn vertices_before(counts: Seq<usize>, k: int) -> int
    decreases k,
{
    if k <= 0 {
        0
    } else {
        vertices_before(counts, k - 1) + counts[k - 1]
    }
}

proof fn lemma_vertices_before_monotone(counts: Seq<usize>, j: int, k: int)
    requires
        0 <= j <= k <= counts.len(),
    ensures
        vertices_before(counts, j) <= vertices_before(counts, k),
    decreases k - j,
{
    if j < k {
        lemma_vertices_before_monotone(counts, j, k - 1);
    }
}

/// Where each draw list's vertices start in the shared vertex buffer, the
/// lists being copied in back to back.
pub fn vertex_offsets(counts: &[usize]) -> (offsets: Vec<u32>)
    requires
        vertices_before(counts@, counts@.len() as int) <= u32::MAX,
    ensures
        offsets@.len() == counts@.len(),
        forall|k: int| 0 <= k < counts@.len() ==> offsets@[k] == vertices_before(counts@, k),
{
    let mut offsets: Vec<u32> = Vec::new();
    let mut off: u32 = 0;
    let mut k: usize = 0;
    while k < counts.len()
        invariant
            k <= counts@.len(),
            vertices_before(counts@, counts@.len() as int) <= u32::MAX,
            off == vertices_before(counts@, k as int),
            offsets@.len() == k,
            forall|q: int| 0 <= q < k ==> offsets@[q] == vertices_before(counts@, q),
        decreases counts@.len() - k,
    {
        proof {
            lemma_vertices_before_monotone(counts@, k + 1, counts@.len() as int);
        }
        offsets.push(off);
        off = off + counts[k] as u32;
        k = k + 1;
    }
    offsets
}

/// Where in a frame the renderer is recording.
#[derive(Clone, Copy, PartialEq, Eq, Structural, Debug)]
pub enum Phase {
    /// Before any pass: vertex/texture uploads.
    Upload,
    /// Inside the offscreen canvas pass (cleared to the background color).
    Scene,
    /// Inside the swapchain pass (scene composite + toolbar draw here).
    Overlay,
}

} // verus!
