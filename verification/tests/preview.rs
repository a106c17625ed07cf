use kexplore::preview::{
    decode_preview, image_kind_of, ImageKind, file_within_limit, needs_thumbnail, pixels_within_limit, premultiplied, previewable, MAX_FILE_BYTES, MAX_PIXELS,
    THUMBNAIL_MAX,
};

#[test]
fn image_extensions_are_previewable() {
    for p in ["a.png", "b.JPG", "/x/c.jpeg", "d.JfIf", "e.webp"] {
        assert!(previewable(p.as_bytes()), "{p}");
    }
    for p in ["a.gif", "png", ".png", "a.png/..", "a.svg", "a.png.txt", "a."] {
        assert!(!previewable(p.as_bytes()), "{p}");
    }
}

#[test]
fn decode_limits() {
    assert_eq!(MAX_FILE_BYTES, 64 * 1024 * 1024);
    assert!(file_within_limit(MAX_FILE_BYTES));
    assert!(!file_within_limit(MAX_FILE_BYTES + 1));
    assert_eq!(MAX_PIXELS, 64_000_000);
    assert!(pixels_within_limit(8000, 8000));
    assert!(!pixels_within_limit(8001, 8000));
    assert!(!pixels_within_limit(u32::MAX, u32::MAX));
    assert!(pixels_within_limit(0, u32::MAX));
}

#[test]
fn only_large_images_get_thumbnailed() {
    assert_eq!(THUMBNAIL_MAX, 2048);
    assert!(!needs_thumbnail(2048, 2048));
    assert!(needs_thumbnail(2049, 10));
    assert!(needs_thumbnail(10, 2049));
}

#[test]
fn premultiplies_color_by_alpha() {
    let img = premultiplied(2, 1, vec![255, 128, 10, 128, 200, 100, 50, 0]);
    assert_eq!((img.width, img.height), (2, 1));
    assert_eq!(img.rgba, vec![128, 64, 5, 128, 0, 0, 0, 0]);
    let opaque = premultiplied(1, 1, vec![1, 2, 3, 255]);
    assert_eq!(opaque.rgba, vec![1, 2, 3, 255]);
}

fn png(w: u32, h: u32, px: &[u8]) -> Vec<u8> {
    let img = image::RgbaImage::from_raw(w, h, px.to_vec()).unwrap();
    let mut out = std::io::Cursor::new(Vec::new());
    img.write_to(&mut out, image::ImageFormat::Png).unwrap();
    out.into_inner()
}

#[test]
fn previews_decode_and_premultiply() {
    let bytes = png(2, 1, &[200, 100, 50, 128, 10, 20, 30, 255]);
    let d = decode_preview(bytes.len() as u64, b"/pics/A.PNG", &bytes).unwrap();
    assert_eq!((d.width, d.height), (2, 1));
    assert_eq!(d.rgba, vec![100, 50, 25, 128, 10, 20, 30, 255]);
}

#[test]
fn large_previews_are_scaled_to_fit() {
    let (w, h) = (4100u32, 3u32);
    let bytes = png(w, h, &vec![255u8; (w * h * 4) as usize]);
    let d = decode_preview(bytes.len() as u64, b"/p/wide.png", &bytes).unwrap();
    assert!(d.width <= THUMBNAIL_MAX && d.height <= THUMBNAIL_MAX);
    assert_eq!(d.width, 2048);
    assert_eq!(d.rgba.len(), (4 * d.width * d.height) as usize);
}

#[test]
fn previews_that_are_refused() {
    let bytes = png(1, 1, &[1, 2, 3, 4]);
    assert!(decode_preview(MAX_FILE_BYTES + 1, b"/p/a.png", &bytes).is_none());
    assert!(decode_preview(bytes.len() as u64, b"/p/a.gif", &bytes).is_none());
    assert!(decode_preview(5, b"/p/a.png", b"nope!").is_none());
    assert_eq!(image_kind_of(b"/p/a.JFIF"), Some(ImageKind::Jpeg));
    assert_eq!(image_kind_of(b"/p/a.webp"), Some(ImageKind::WebP));
    assert_eq!(image_kind_of(b"/p/a"), None);
}
