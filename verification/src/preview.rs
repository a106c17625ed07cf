//! Image previews: which files get one, the limits a decode must respect,
//! the decode itself (through the `image` crate) and the premultiplied
//! RGBA8 pixels handed to the renderer. Reading the file is the caller's
//! I/O.

use vstd::prelude::*;
use crate::handlers::{extension_key, lowercase_extension};

verus! {

/// Files larger than this are not decoded (decompression bombs).
pub const MAX_FILE_BYTES: u64 = 67108864;

/// Images with more pixels than this are not decoded.
pub const MAX_PIXELS: u64 = 64000000;

/// Decoded images wider or taller than this are scaled down to fit.
pub const THUMBNAIL_MAX: u32 = 2048;

/// A decoded image, ready for upload.
pub struct DecodedImage {
    pub width: u32,
    pub height: u32,
    /// RGBA8, premultiplied alpha.
    pub rgba: Vec<u8>,
}

impl DecodedImage {
    /// Four bytes per pixel, row by row.
    pub open spec fn wf(&self) -> bool {
        self.rgba@.len() == 4 * self.width * self.height
    }
}

/// The (lowercased) extensions that get an image preview.
pub open spec fn preview_exts() -> Seq<Seq<char>> {
    seq!["png"@, "jpg"@, "jpeg"@, "jfif"@, "webp"@]
}

/// A file whose extension names an image format the previewer decodes.
pub open spec fn is_previewable(path: Seq<u8>) -> bool {
    match extension_key(path) {
        Some(e) => preview_exts().contains(e),
        None => false,
    }
}

/// Whether `path` (raw bytes) names a previewable image.
pub fn previewable(path: &[u8]) -> (r: bool)
    ensures
        r == is_previewable(path@),
{
    let ext = match lowercase_extension(path) {
        Some(e) => e,
        None => return false,
    };
    let png = String::from_str("png");
    let jpg = String::from_str("jpg");
    let jpeg = String::from_str("jpeg");
    let jfif = String::from_str("jfif");
    let webp = String::from_str("webp");
    let r = ext == png || ext == jpg || ext == jpeg || ext == jfif || ext == webp;
    proof {
        let exts = preview_exts();
        assert(exts[0] == png@ && exts[1] == jpg@ && exts[2] == jpeg@ && exts[3] == jfif@ && exts[4] == webp@);
        if exts.contains(ext@) {
            let k = choose|k: int| 0 <= k < exts.len() && exts[k] == ext@;
            assert(k == 0 || k == 1 || k == 2 || k == 3 || k == 4);
        }
        if r {
            if ext@ == png@ {
                assert(exts[0] == ext@);
            } else if ext@ == jpg@ {
                assert(exts[1] == ext@);
            } else if ext@ == jpeg@ {
                assert(exts[2] == ext@);
            } else if ext@ == jfif@ {
                assert(exts[3] == ext@);
            } else {
                assert(exts[4] == ext@);
            }
        }
    }
    r
}

/// A file of `len` bytes is small enough to decode.
pub fn file_within_limit(len: u64) -> (r: bool)
    ensures
        r == (len <= MAX_FILE_BYTES),
{
    len <= MAX_FILE_BYTES
}

/// An image of `width`×`height` pixels is small enough to decode.
pub fn pixels_within_limit(width: u32, height: u32) -> (r: bool)
    ensures
        r == (width * height <= MAX_PIXELS),
{
    proof {
        vstd::arithmetic::mul::lemma_mul_upper_bound(
            width as int,
            u32::MAX as int,
            height as int,
            u32::MAX as int,
        );
    }
    (width as u64) * (height as u64) <= MAX_PIXELS
}

/// A decoded image this large is scaled down to fit
/// `THUMBNAIL_MAX`×`THUMBNAIL_MAX` (aspect kept) before upload.
pub fn needs_thumbnail(width: u32, height: u32) -> (r: bool)
    ensures
        r == (width > THUMBNAIL_MAX || height > THUMBNAIL_MAX),
{
    width > THUMBNAIL_MAX || height > THUMBNAIL_MAX
}

/// Channel `c` scaled by alpha `a` (both 0..=255), rounding down.
pub open spec fn scale_by_alpha(c: u8, a: u8) -> u8 {
    ((c as int) * (a as int) / 255) as u8
}

/// Straight RGBA8 turned into premultiplied RGBA8: every color byte scaled
/// by its pixel's alpha byte, the alpha bytes kept.
pub open spec fn premultiply(px: Seq<u8>) -> Seq<u8> {
    Seq::new(
        px.len(),
        |i: int|
            if i % 4 == 3 {
                px[i]
            } else {
                scale_by_alpha(px[i], px[i - i % 4 + 3])
            },
    )
}

fn scale_channel(c: u8, a: u8) -> (r: u8)
    ensures
        r == scale_by_alpha(c, a),
{
    proof {
        assert((c as int) * (a as int) <= 255 * 255) by (nonlinear_arith)
            requires
                c <= 255,
                a <= 255,
        ;
        assert((c as int) * (a as int) / 255 <= 255) by (nonlinear_arith)
            requires
                (c as int) * (a as int) <= 255 * 255,
                (c as int) * (a as int) >= 0,
        ;
    }
    let p = (c as u16) * (a as u16);
    (p / 255) as u8
}

/// Wrap straight RGBA8 pixels (`width`×`height`, row by row) as a decoded
/// image, premultiplying the alpha.
pub fn premultiplied(width: u32, height: u32, rgba: Vec<u8>) -> (img: DecodedImage)
    requires
        rgba@.len() == 4 * width * height,
    ensures
        img.width == width,
        img.height == height,
        img.rgba@ == premultiply(rgba@),
        img.wf(),
{
    let ghost src = rgba@;
    let mut px = rgba;
    let n = px.len();
    proof {
        let m = width * height;
        vstd::arithmetic::mul::lemma_mul_is_associative(4, width as int, height as int);
        vstd::arithmetic::mul::lemma_mul_is_commutative(4, m);
        vstd::arithmetic::div_mod::lemma_mod_multiples_basic(m, 4);
    }
    let mut i: usize = 0;
    while i < n
        invariant
            n == src.len(),
            n % 4 == 0,
            i <= n,
            i % 4 == 0,
            px@.len() == n,
            forall|k: int| 0 <= k < i ==> px@[k] == #[trigger] premultiply(src)[k],
            forall|k: int| i <= k < n ==> px@[k] == src[k],
        decreases n - i,
    {
        let a = px[i + 3];
        let r = scale_channel(px[i], a);
        let g = scale_channel(px[i + 1], a);
        let b = scale_channel(px[i + 2], a);
        px.set(i, r);
        px.set(i + 1, g);
        px.set(i + 2, b);
        proof {
            assert((i + 1) % 4 == 1 && (i + 2) % 4 == 2 && (i + 3) % 4 == 3);
            assert forall|k: int| 0 <= k < i + 4 implies px@[k] == #[trigger] premultiply(src)[k] by {
                if k >= i {
                    assert(k - k % 4 + 3 == i + 3);
                }
            }
        }
        i = i + 4;
    }
    proof {
        assert(px@ =~= premultiply(src));
    }
    DecodedImage { width, height, rgba: px }
}

/// The image formats the previewer decodes.
#[derive(Clone, Copy, PartialEq, Eq, Structural, Debug)]
pub enum ImageKind {
    Png,
    Jpeg,
    WebP,
}

/// The format a previewable path's extension names.
pub open spec fn image_kind(path: Seq<u8>) -> Option<ImageKind> {
    match extension_key(path) {
        Some(e) => if e == "png"@ {
            Some(ImageKind::Png)
        } else if e == "jpg"@ || e == "jpeg"@ || e == "jfif"@ {
            Some(ImageKind::Jpeg)
        } else if e == "webp"@ {
            Some(ImageKind::WebP)
        } else {
            None
        },
        None => None,
    }
}

/// Every previewable file has a decoder, chosen by its extension
/// (compared without regard to case): png by the PNG decoder; jpg, jpeg and
/// jfif by the JPEG decoder; webp by the WebP decoder. Any other file has
/// none.
pub proof fn law_previewable_files_have_a_decoder(path: Seq<u8>)
    ensures
        is_previewable(path) <==> image_kind(path) is Some,
        extension_key(path) == Some("png"@) ==> image_kind(path) == Some(ImageKind::Png),
        extension_key(path) == Some("jpg"@) ==> image_kind(path) == Some(ImageKind::Jpeg),
        extension_key(path) == Some("jpeg"@) ==> image_kind(path) == Some(ImageKind::Jpeg),
        extension_key(path) == Some("jfif"@) ==> image_kind(path) == Some(ImageKind::Jpeg),
        extension_key(path) == Some("webp"@) ==> image_kind(path) == Some(ImageKind::WebP),
{
    reveal_strlit("png");
    reveal_strlit("jpg");
    reveal_strlit("jpeg");
    reveal_strlit("jfif");
    reveal_strlit("webp");
    let exts = preview_exts();
    assert(exts[0] == "png"@ && exts[1] == "jpg"@ && exts[2] == "jpeg"@ && exts[3] == "jfif"@ && exts[4]
        == "webp"@);
    assert("jpg"@[0] != "png"@[0]);
    assert("jpeg"@[0] != "png"@[0]);
    assert("jfif"@[0] != "png"@[0]);
    assert("webp"@[0] != "png"@[0]);
    assert("webp"@[0] != "jpg"@[0]);
    assert("webp"@[0] != "jpeg"@[0]);
    assert("webp"@[0] != "jfif"@[0]);
    if let Some(e) = extension_key(path) {
        if exts.contains(e) {
            let k = choose|k: int| 0 <= k < exts.len() && exts[k] == e;
            assert(k == 0 || k == 1 || k == 2 || k == 3 || k == 4);
        }
        if e == "png"@ {
            assert(exts[0] == e);
        } else if e == "jpg"@ {
            assert(exts[1] == e);
        } else if e == "jpeg"@ {
            assert(exts[2] == e);
        } else if e == "jfif"@ {
            assert(exts[3] == e);
        } else if e == "webp"@ {
            assert(exts[4] == e);
        }
    }
}

/// The format named by the extension of `path` (raw bytes), if it is one
/// the previewer decodes.
pub fn image_kind_of(path: &[u8]) -> (r: Option<ImageKind>)
    ensures
        r == image_kind(path@),
{
    let ext = match lowercase_extension(path) {
        Some(e) => e,
        None => return None,
    };
    if ext == String::from_str("png") {
        Some(ImageKind::Png)
    } else if ext == String::from_str("jpg") || ext == String::from_str("jpeg") || ext == String::from_str(
        "jfif",
    ) {
        Some(ImageKind::Jpeg)
    } else if ext == String::from_str("webp") {
        Some(ImageKind::WebP)
    } else {
        None
    }
}

/// What the `image` crate reads as the size of an image of the given
/// format from its header.
pub uninterp spec fn image_dims(kind: ImageKind, bytes: Seq<u8>) -> Option<(u32, u32)>;

/// What the `image` crate decodes from bytes of the given format, as
/// width, height and straight RGBA8 pixels.
pub uninterp spec fn decoded_rgba(kind: ImageKind, bytes: Seq<u8>) -> Option<(u32, u32, Seq<u8>)>;

/// What the `image` crate's thumbnail scaling makes of RGBA8 pixels when
/// fitting them into `max`×`max`.
pub uninterp spec fn thumbnailed(width: u32, height: u32, rgba: Seq<u8>, max: u32) -> (u32, u32, Seq<u8>);

/// `ImageReader::with_format(..).into_dimensions()` on bytes in memory:
/// the image size from the header, `None` where the decoder fails. The
/// result is named by the format and the bytes.
#[verifier::external_body]
fn image_dimensions(kind: ImageKind, bytes: &[u8]) -> (r: Option<(u32, u32)>)
    ensures
        r == image_dims(kind, bytes@),
{
    let format = match kind {
        ImageKind::Png => image::ImageFormat::Png,
        ImageKind::Jpeg => image::ImageFormat::Jpeg,
        ImageKind::WebP => image::ImageFormat::WebP,
    };
    image::ImageReader::with_format(std::io::Cursor::new(bytes), format).into_dimensions().ok()
}

/// `ImageReader::with_format(..).decode()` on bytes in memory, converted
/// with `into_rgba8`: width, height and the raw straight RGBA8 buffer,
/// `None` where decoding fails. The result is named by the format and the
/// bytes; that the buffer holds exactly four bytes per pixel is not stated.
#[verifier::external_body]
fn decode_rgba(kind: ImageKind, bytes: &[u8]) -> (r: Option<(u32, u32, Vec<u8>)>)
    ensures
        match r {
            Some((w, h, px)) => decoded_rgba(kind, bytes@) == Some((w, h, px@)),
            None => decoded_rgba(kind, bytes@) is None,
        },
{
    let format = match kind {
        ImageKind::Png => image::ImageFormat::Png,
        ImageKind::Jpeg => image::ImageFormat::Jpeg,
        ImageKind::WebP => image::ImageFormat::WebP,
    };
    let img = image::ImageReader::with_format(std::io::Cursor::new(bytes), format).decode().ok()?;
    let rgba = img.into_rgba8();
    let (w, h) = rgba.dimensions();
    Some((w, h, rgba.into_raw()))
}

/// `DynamicImage::thumbnail(max, max)` on an RGBA8 image, converted back
/// with `into_rgba8`: the image scaled down, aspect kept, to fit within
/// `max`×`max`; its buffer holds four bytes per pixel. The pixels are named
/// by the arguments.
#[verifier::external_body]
fn thumbnail_rgba(width: u32, height: u32, rgba: Vec<u8>, max: u32) -> (r: (u32, u32, Vec<u8>))
    requires
        rgba@.len() == 4 * width * height,
        max >= 1,
    ensures
        (r.0, r.1, r.2@) == thumbnailed(width, height, rgba@, max),
        r.0 <= max,
        r.1 <= max,
        r.2@.len() == 4 * r.0 * r.1,
{
    let img = image::RgbaImage::from_raw(width, height, rgba).expect("four bytes per pixel");
    let small = image::DynamicImage::ImageRgba8(img).thumbnail(max, max).into_rgba8();
    let (w, h) = small.dimensions();
    (w, h, small.into_raw())
}

/// The straight RGBA8 pixels a preview of the file shows: `None` where the
/// file is too large, its extension names no previewed format, its header
/// does not decode or announces too many pixels, or its pixels do not
/// decode into four bytes each; else the decoded pixels, scaled down to fit
/// `THUMBNAIL_MAX`×`THUMBNAIL_MAX` where they exceed it.
pub open spec fn preview_pixels(file_len: u64, path: Seq<u8>, bytes: Seq<u8>) -> Option<(u32, u32, Seq<u8>)> {
    if file_len > MAX_FILE_BYTES {
        None
    } else {
        match image_kind(path) {
            None => None,
            Some(k) => match image_dims(k, bytes) {
                None => None,
                Some((w, h)) => if w * h > MAX_PIXELS {
                    None
                } else {
                    match decoded_rgba(k, bytes) {
                        None => None,
                        Some((w0, h0, px)) => if px.len() != 4 * w0 * h0 {
                            None
                        } else if w0 > THUMBNAIL_MAX || h0 > THUMBNAIL_MAX {
                            Some(thumbnailed(w0, h0, px, THUMBNAIL_MAX))
                        } else {
                            Some((w0, h0, px))
                        },
                    }
                },
            },
        }
    }
}

/// Decodes the bytes of the file at `path` (`file_len` bytes on disk) into
/// the preview image: the pixels of `preview_pixels`, premultiplied.
pub fn decode_preview(file_len: u64, path: &[u8], bytes: &[u8]) -> (r: Option<DecodedImage>)
    ensures
        match preview_pixels(file_len, path@, bytes@) {
            None => r is None,
            Some((w, h, px)) => r matches Some(d) && d.width == w && d.height == h && d.rgba@ == premultiply(px),
        },
        r matches Some(d) ==> d.width <= THUMBNAIL_MAX && d.height <= THUMBNAIL_MAX && d.wf(),
{
    if !file_within_limit(file_len) {
        return None;
    }
    let kind = match image_kind_of(path) {
        Some(k) => k,
        None => return None,
    };
    let (w, h) = match image_dimensions(kind, bytes) {
        Some(d) => d,
        None => return None,
    };
    if !pixels_within_limit(w, h) {
        return None;
    }
    let (w0, h0, px) = match decode_rgba(kind, bytes) {
        Some(d) => d,
        None => return None,
    };
    let want = match (w0 as u64).checked_mul(h0 as u64) {
        Some(n) => n.checked_mul(4),
        None => None,
    };
    let fits = match want {
        Some(n) => px.len() as u64 == n,
        None => false,
    };
    proof {
        vstd::arithmetic::mul::lemma_mul_is_associative(4, w0 as int, h0 as int);
        vstd::arithmetic::mul::lemma_mul_is_commutative(4, w0 * h0);
        vstd::arithmetic::mul::lemma_mul_nonnegative(w0 as int, h0 as int);
        if want is None {
            assert(4 * w0 * h0 > u64::MAX);
        }
    }
    if !fits {
        return None;
    }
    if needs_thumbnail(w0, h0) {
        let (w1, h1, small) = thumbnail_rgba(w0, h0, px, THUMBNAIL_MAX);
        Some(premultiplied(w1, h1, small))
    } else {
        Some(premultiplied(w0, h0, px))
    }
}

} // verus!
