//! The choices made when a presentation surface is set up: which physical
//! device and queue family render to it, which pixel format the swapchain
//! uses, how large its images are, how many there are and how they are
//! composited. The graphics API's queries run in the application; these
//! functions take what the queries returned, as plain numbers.
use vstd::prelude::*;

verus! {

/// Raw value of the 8-bit BGRA, linear-encoded ("UNORM") image format.
pub const FORMAT_B8G8R8A8_UNORM: i32 = 44;

/// Raw value of the 8-bit RGBA, linear-encoded ("UNORM") image format.
pub const FORMAT_R8G8B8A8_UNORM: i32 = 37;

/// Raw value of the non-linear sRGB colour space.
pub const COLOR_SPACE_SRGB_NONLINEAR: i32 = 0;

/// Composite-alpha bit: the window is opaque.
pub const COMPOSITE_ALPHA_OPAQUE: u32 = 1;

/// Composite-alpha bit: colours are premultiplied by their alpha.
pub const COMPOSITE_ALPHA_PRE_MULTIPLIED: u32 = 2;

/// Composite-alpha bit: the compositor decides by other means.
pub const COMPOSITE_ALPHA_INHERIT: u32 = 8;

/// The packed API version 1.3.0 (major in bits 22.., minor in bits 12..).
pub const MIN_API_VERSION: u32 = 4206592;

/// Queue-family capability bit: the family runs graphics work.
pub const QUEUE_GRAPHICS: u32 = 1;

/// One format/colour-space pair that a surface supports.
#[derive(Clone, Copy, Debug, PartialEq, Eq, Structural)]
pub struct SurfaceFormat {
    pub format: i32,
    pub color_space: i32,
}

/// A width and a height in pixels.
#[derive(Clone, Copy, Debug, PartialEq, Eq, Structural)]
pub struct Extent {
    pub width: u32,
    pub height: u32,
}

/// One queue family of a device: its capability bits, and whether it can
/// present to the surface.
#[derive(Clone, Copy, Debug, PartialEq, Eq, Structural)]
pub struct QueueFamily {
    pub flags: u32,
    pub can_present: bool,
}

/// What the device query says about one physical device: its API version,
/// whether it is a discrete GPU, and its queue families in order.
#[derive(Debug)]
pub struct DeviceCandidate {
    pub api_version: u32,
    pub discrete: bool,
    pub families: Vec<QueueFamily>,
}

pub open spec fn is_bgra_srgb(f: SurfaceFormat) -> bool {
    f.format == FORMAT_B8G8R8A8_UNORM && f.color_space == COLOR_SPACE_SRGB_NONLINEAR
}

pub open spec fn is_rgba_unorm(f: SurfaceFormat) -> bool {
    f.format == FORMAT_R8G8B8A8_UNORM
}

/// `i` is the first position of `s` whose element satisfies `p`.
pub open spec fn first_where(s: Seq<SurfaceFormat>, p: spec_fn(SurfaceFormat) -> bool, i: int) -> bool {
    &&& 0 <= i < s.len()
    &&& p(s[i])
    &&& forall|j: int| 0 <= j < i ==> !p(#[trigger] s[j])
}

pub open spec fn none_where(s: Seq<SurfaceFormat>, p: spec_fn(SurfaceFormat) -> bool) -> bool {
    forall|j: int| 0 <= j < s.len() ==> !p(#[trigger] s[j])
}

/// Position `i` holds the format to use: the first BGRA/sRGB pair, else the
/// first RGBA one, else the first of all.
pub open spec fn picks_format(s: Seq<SurfaceFormat>, i: int) -> bool {
    ||| first_where(s, |f: SurfaceFormat| is_bgra_srgb(f), i)
    ||| none_where(s, |f: SurfaceFormat| is_bgra_srgb(f)) && first_where(
        s,
        |f: SurfaceFormat| is_rgba_unorm(f),
        i,
    )
    ||| none_where(s, |f: SurfaceFormat| is_bgra_srgb(f)) && none_where(
        s,
        |f: SurfaceFormat| is_rgba_unorm(f),
    ) && i == 0 && s.len() > 0
}

/// Picks the swapchain format among those the surface supports: 8-bit BGRA
/// with the sRGB colour space where offered (blending then happens on the
/// encoded values), else 8-bit RGBA, else whatever comes first. `None` when
/// the surface lists no format.
pub fn choose_format(formats: &[SurfaceFormat]) -> (r: Option<SurfaceFormat>)
    ensures
        r is None <==> formats@.len() == 0,
        r matches Some(f) ==> exists|i: int| picks_format(formats@, i) && f == formats@[i],
{
    let mut i: usize = 0;
    while i < formats.len()
        invariant
            0 <= i <= formats@.len(),
            forall|j: int| 0 <= j < i ==> !is_bgra_srgb(#[trigger] formats@[j]),
        decreases formats@.len() - i,
    {
        let f = formats[i];
        if f.format == FORMAT_B8G8R8A8_UNORM && f.color_space == COLOR_SPACE_SRGB_NONLINEAR {
            assert(first_where(formats@, |f: SurfaceFormat| is_bgra_srgb(f), i as int));
            return Some(f);
        }
        i += 1;
    }
    assert(none_where(formats@, |f: SurfaceFormat| is_bgra_srgb(f)));
    let mut k: usize = 0;
    while k < formats.len()
        invariant
            0 <= k <= formats@.len(),
            none_where(formats@, |f: SurfaceFormat| is_bgra_srgb(f)),
            forall|j: int| 0 <= j < k ==> !is_rgba_unorm(#[trigger] formats@[j]),
        decreases formats@.len() - k,
    {
        let f = formats[k];
        if f.format == FORMAT_R8G8B8A8_UNORM {
            assert(first_where(formats@, |f: SurfaceFormat| is_rgba_unorm(f), k as int));
            return Some(f);
        }
        k += 1;
    }
    assert(none_where(formats@, |f: SurfaceFormat| is_rgba_unorm(f)));
    if formats.len() > 0 {
        assert(picks_format(formats@, 0));
        Some(formats[0])
    } else {
        None
    }
}

pub open spec fn clamp_spec(v: u32, lo: u32, hi: u32) -> u32 {
    if v < lo {
        lo
    } else if v > hi {
        hi
    } else {
        v
    }
}

pub open spec fn at_least_one(v: u32) -> u32 {
    if v < 1 {
        1
    } else {
        v
    }
}

/// The size of the swapchain images. A surface that reports a current size
/// (any width but `u32::MAX`) gets exactly that; otherwise the requested
/// size is clamped, per axis, between the surface's minimum (at least 1)
/// and maximum.
pub fn choose_extent(current: Extent, min: Extent, max: Extent, requested: (u32, u32)) -> (r: Extent)
    requires
        current.width == u32::MAX ==> at_least_one(min.width) <= max.width && at_least_one(
            min.height,
        ) <= max.height,
    ensures
        current.width != u32::MAX ==> r == current,
        current.width == u32::MAX ==> r.width == clamp_spec(
            requested.0,
            at_least_one(min.width),
            max.width,
        ) && r.height == clamp_spec(requested.1, at_least_one(min.height), max.height),
{
    if current.width != u32::MAX {
        return current;
    }
    let lo_w: u32 = if min.width < 1 {
        1
    } else {
        min.width
    };
    let lo_h: u32 = if min.height < 1 {
        1
    } else {
        min.height
    };
    let width: u32 = if requested.0 < lo_w {
        lo_w
    } else if requested.0 > max.width {
        max.width
    } else {
        requested.0
    };
    let height: u32 = if requested.1 < lo_h {
        lo_h
    } else if requested.1 > max.height {
        max.height
    } else {
        requested.1
    };
    Extent { width, height }
}

/// How many swapchain images to ask for: one more than the minimum, capped
/// by the maximum where the surface has one (a maximum of 0 means none).
pub fn image_count(min_count: u32, max_count: u32) -> (r: u32)
    requires
        min_count < u32::MAX,
    ensures
        r == (if max_count > 0 && min_count + 1 > max_count {
            max_count as int
        } else {
            min_count + 1
        }),
{
    let want: u32 = min_count + 1;
    if max_count > 0 && want > max_count {
        max_count
    } else {
        want
    }
}

/// The composite-alpha mode: premultiplied where supported, so the window's
/// translucent background shows; else opaque; else inherited.
pub fn composite_alpha(supported: u32) -> (r: u32)
    ensures
        r == (if supported & COMPOSITE_ALPHA_PRE_MULTIPLIED == COMPOSITE_ALPHA_PRE_MULTIPLIED {
            COMPOSITE_ALPHA_PRE_MULTIPLIED
        } else if supported & COMPOSITE_ALPHA_OPAQUE == COMPOSITE_ALPHA_OPAQUE {
            COMPOSITE_ALPHA_OPAQUE
        } else {
            COMPOSITE_ALPHA_INHERIT
        }),
{
    if supported & COMPOSITE_ALPHA_PRE_MULTIPLIED == COMPOSITE_ALPHA_PRE_MULTIPLIED {
        COMPOSITE_ALPHA_PRE_MULTIPLIED
    } else if supported & COMPOSITE_ALPHA_OPAQUE == COMPOSITE_ALPHA_OPAQUE {
        COMPOSITE_ALPHA_OPAQUE
    } else {
        COMPOSITE_ALPHA_INHERIT
    }
}

/// The family runs graphics work and can present to the surface.
pub open spec fn usable(f: QueueFamily) -> bool {
    f.flags & QUEUE_GRAPHICS == QUEUE_GRAPHICS && f.can_present
}

/// `i` is the first queue family of `fams` that can both draw and present.
pub open spec fn first_family(fams: Seq<QueueFamily>, i: int) -> bool {
    &&& 0 <= i < fams.len()
    &&& usable(fams[i])
    &&& forall|j: int| 0 <= j < i ==> !usable(#[trigger] fams[j])
}

/// The device is recent enough and has a family that can draw and present.
pub open spec fn qualifies(d: DeviceCandidate) -> bool {
    &&& d.api_version >= MIN_API_VERSION
    &&& exists|i: int| 0 <= i < d.families@.len() && usable(#[trigger] d.families@[i])
}

pub open spec fn qualifies_discrete(d: DeviceCandidate) -> bool {
    qualifies(d) && d.discrete
}

/// Device `k` is the one to use: the first qualifying discrete GPU, or,
/// where there is none, the first qualifying device.
pub open spec fn picks_device(devs: Seq<DeviceCandidate>, k: int) -> bool {
    &&& 0 <= k < devs.len()
    &&& qualifies(devs[k])
    &&& {
        ||| devs[k].discrete && forall|m: int| 0 <= m < k ==> !qualifies_discrete(#[trigger] devs[m])
        ||| (forall|m: int| 0 <= m < devs.len() ==> !qualifies_discrete(#[trigger] devs[m])) && (
        forall|m: int| 0 <= m < k ==> !qualifies(#[trigger] devs[m]))
    }
}

/// The first queue family of `fams` that can draw and present, if any.
fn first_usable_family(fams: &Vec<QueueFamily>) -> (r: Option<u32>)
    requires
        fams@.len() <= u32::MAX,
    ensures
        r is None <==> forall|i: int| 0 <= i < fams@.len() ==> !usable(#[trigger] fams@[i]),
        r matches Some(i) ==> first_family(fams@, i as int),
{
    let mut i: usize = 0;
    while i < fams.len()
        invariant
            0 <= i <= fams@.len(),
            fams@.len() <= u32::MAX,
            forall|j: int| 0 <= j < i ==> !usable(#[trigger] fams@[j]),
        decreases fams@.len() - i,
    {
        let f = fams[i];
        if f.flags & QUEUE_GRAPHICS == QUEUE_GRAPHICS && f.can_present {
            return Some(i as u32);
        }
        i += 1;
    }
    None
}

/// Picks the physical device and queue family to render with: among the
/// devices with API version 1.3 or later and a queue family that supports
/// both graphics and presentation to the surface, the first discrete GPU,
/// else the first such device; on it, the first such family. `None` when
/// no device qualifies.
pub fn pick_device(devs: &[DeviceCandidate]) -> (r: Option<(usize, u32)>)
    requires
        forall|k: int| 0 <= k < devs@.len() ==> (#[trigger] devs@[k]).families@.len() <= u32::MAX,
    ensures
        r is None <==> forall|k: int| 0 <= k < devs@.len() ==> !qualifies(#[trigger] devs@[k]),
        r matches Some((k, fam)) ==> picks_device(devs@, k as int) && first_family(
            devs@[k as int].families@,
            fam as int,
        ),
{
    let mut picked: Option<(usize, u32)> = None;
    let mut k: usize = 0;
    while k < devs.len()
        invariant
            0 <= k <= devs@.len(),
            forall|q: int| 0 <= q < devs@.len() ==> (#[trigger] devs@[q]).families@.len() <= u32::MAX,
            forall|m: int| 0 <= m < k ==> !qualifies_discrete(#[trigger] devs@[m]),
            picked is None ==> forall|m: int| 0 <= m < k ==> !qualifies(#[trigger] devs@[m]),
            picked matches Some((p, fam)) ==> {
                &&& p < k
                &&& qualifies(devs@[p as int])
                &&& first_family(devs@[p as int].families@, fam as int)
                &&& forall|m: int| 0 <= m < p ==> !qualifies(#[trigger] devs@[m])
            },
        decreases devs@.len() - k,
    {
        let d = &devs[k];
        if d.api_version >= MIN_API_VERSION {
            let fam = first_usable_family(&d.families);
            if let Some(i) = fam {
                if d.discrete {
                    return Some((k, i));
                }
                if picked.is_none() {
                    picked = Some((k, i));
                }
            }
        }
        k += 1;
    }
    picked
}

/// The blur's render targets for a window of size `extent` whose toolbar
/// band is `band_h` pixels tall: the band itself (full width, the height
/// clamped into `1..=extent.height`) and the half-resolution target the
/// band is blurred into (each side halved, at least 1).
pub fn attachment_extent(extent: Extent, band_h: u32) -> (r: (Extent, Extent))
    requires
        extent.height >= 1,
    ensures
        r.0 == (Extent { width: extent.width, height: clamp_spec(band_h, 1, extent.height) }),
        r.1.width == at_least_one(extent.width / 2),
        r.1.height == at_least_one(clamp_spec(band_h, 1, extent.height) / 2),
{
    let band: u32 = clamp_band(band_h, extent.height);
    let half_w: u32 = extent.width / 2;
    let half_h: u32 = band / 2;
    let blur = Extent {
        width: if half_w < 1 {
            1
        } else {
            half_w
        },
        height: if half_h < 1 {
            1
        } else {
            half_h
        },
    };
    (Extent { width: extent.width, height: band }, blur)
}

/// The toolbar band's height clamped into `1..=height`.
fn clamp_band(band_h: u32, height: u32) -> (r: u32)
    requires
        height >= 1,
    ensures
        r == clamp_spec(band_h, 1, height),
{
    if band_h < 1 {
        1
    } else if band_h > height {
        height
    } else {
        band_h
    }
}

} // verus!
