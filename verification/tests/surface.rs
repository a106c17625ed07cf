use ash::vk;
use kexplore::surface::{
    attachment_extent, choose_extent, choose_format, composite_alpha, image_count, pick_device, DeviceCandidate,
    Extent, QueueFamily, SurfaceFormat, COLOR_SPACE_SRGB_NONLINEAR, COMPOSITE_ALPHA_INHERIT,
    COMPOSITE_ALPHA_OPAQUE, COMPOSITE_ALPHA_PRE_MULTIPLIED, FORMAT_B8G8R8A8_UNORM,
    FORMAT_R8G8B8A8_UNORM, MIN_API_VERSION, QUEUE_GRAPHICS,
};

fn fmt(format: i32, color_space: i32) -> SurfaceFormat {
    SurfaceFormat { format, color_space }
}

fn dev(api_version: u32, discrete: bool, fams: &[bool]) -> DeviceCandidate {
    let families = fams.iter().map(|&ok| QueueFamily { flags: 0b111, can_present: ok }).collect();
    DeviceCandidate { api_version, discrete, families }
}

#[test]
fn constants_match_the_graphics_api() {
    assert_eq!(FORMAT_B8G8R8A8_UNORM, vk::Format::B8G8R8A8_UNORM.as_raw());
    assert_eq!(FORMAT_R8G8B8A8_UNORM, vk::Format::R8G8B8A8_UNORM.as_raw());
    assert_eq!(COLOR_SPACE_SRGB_NONLINEAR, vk::ColorSpaceKHR::SRGB_NONLINEAR.as_raw());
    assert_eq!(COMPOSITE_ALPHA_OPAQUE, vk::CompositeAlphaFlagsKHR::OPAQUE.as_raw());
    assert_eq!(
        COMPOSITE_ALPHA_PRE_MULTIPLIED,
        vk::CompositeAlphaFlagsKHR::PRE_MULTIPLIED.as_raw()
    );
    assert_eq!(COMPOSITE_ALPHA_INHERIT, vk::CompositeAlphaFlagsKHR::INHERIT.as_raw());
    assert_eq!(MIN_API_VERSION, vk::API_VERSION_1_3);
    assert_eq!(QUEUE_GRAPHICS, vk::QueueFlags::GRAPHICS.as_raw());
}

#[test]
fn bgra_srgb_is_preferred_wherever_it_stands() {
    let formats = [fmt(37, 0), fmt(44, 1), fmt(44, 0), fmt(50, 0)];
    assert_eq!(choose_format(&formats), Some(fmt(44, 0)));
}

#[test]
fn rgba_unorm_is_the_second_choice() {
    let formats = [fmt(50, 0), fmt(44, 1), fmt(37, 5), fmt(37, 0)];
    assert_eq!(choose_format(&formats), Some(fmt(37, 5)));
}

#[test]
fn otherwise_the_first_format_is_taken() {
    let formats = [fmt(50, 2), fmt(44, 1)];
    assert_eq!(choose_format(&formats), Some(fmt(50, 2)));
    assert_eq!(choose_format(&[]), None);
}

#[test]
fn a_current_extent_is_used_as_it_is() {
    let cur = Extent { width: 800, height: 600 };
    let min = Extent { width: 1, height: 1 };
    let max = Extent { width: 4096, height: 4096 };
    assert_eq!(choose_extent(cur, min, max, (10, 20)), cur);
}

#[test]
fn an_undefined_extent_clamps_the_request() {
    let cur = Extent { width: u32::MAX, height: u32::MAX };
    let min = Extent { width: 0, height: 100 };
    let max = Extent { width: 1000, height: 500 };
    assert_eq!(choose_extent(cur, min, max, (0, 800)), Extent { width: 1, height: 500 });
    assert_eq!(choose_extent(cur, min, max, (640, 50)), Extent { width: 640, height: 100 });
}

#[test]
fn image_count_is_one_above_the_minimum_within_the_maximum() {
    assert_eq!(image_count(2, 0), 3);
    assert_eq!(image_count(2, 8), 3);
    assert_eq!(image_count(3, 3), 3);
}

#[test]
fn composite_alpha_prefers_premultiplied() {
    assert_eq!(composite_alpha(0b1011), COMPOSITE_ALPHA_PRE_MULTIPLIED);
    assert_eq!(composite_alpha(0b1001), COMPOSITE_ALPHA_OPAQUE);
    assert_eq!(composite_alpha(0b1000), COMPOSITE_ALPHA_INHERIT);
    assert_eq!(composite_alpha(0), COMPOSITE_ALPHA_INHERIT);
}

#[test]
fn a_discrete_gpu_wins_over_an_earlier_integrated_one() {
    let devs = [
        dev(MIN_API_VERSION, false, &[false, true]),
        dev(MIN_API_VERSION - 1, true, &[true]),
        dev(MIN_API_VERSION, true, &[false, false, true, true]),
        dev(MIN_API_VERSION, true, &[true]),
    ];
    assert_eq!(pick_device(&devs), Some((2, 2)));
}

#[test]
fn without_a_discrete_gpu_the_first_usable_device_is_taken() {
    let devs = [
        dev(MIN_API_VERSION, true, &[false]),
        dev(MIN_API_VERSION, false, &[false, true]),
        dev(MIN_API_VERSION, false, &[true]),
    ];
    assert_eq!(pick_device(&devs), Some((1, 1)));
    assert_eq!(pick_device(&[dev(MIN_API_VERSION, true, &[])]), None);
}

#[test]
fn blur_targets_follow_the_clamped_band() {
    let win = Extent { width: 801, height: 600 };
    let (band, blur) = attachment_extent(win, 90);
    assert_eq!(band, Extent { width: 801, height: 90 });
    assert_eq!(blur, Extent { width: 400, height: 45 });
    let (band, blur) = attachment_extent(win, 0);
    assert_eq!(band, Extent { width: 801, height: 1 });
    assert_eq!(blur, Extent { width: 400, height: 1 });
    let (band, _) = attachment_extent(Extent { width: 1, height: 50 }, 900);
    assert_eq!(band, Extent { width: 1, height: 50 });
    assert_eq!(attachment_extent(Extent { width: 1, height: 50 }, 900).1, Extent { width: 1, height: 25 });
}

#[test]
fn a_family_must_both_draw_and_present() {
    let compute_only = QueueFamily { flags: 0b110, can_present: true };
    let no_present = QueueFamily { flags: 0b001, can_present: false };
    let both = QueueFamily { flags: 0b011, can_present: true };
    let d = DeviceCandidate { api_version: MIN_API_VERSION, discrete: false, families: vec![compute_only, no_present, both] };
    assert_eq!(pick_device(&[d]), Some((0, 2)));
    let d = DeviceCandidate { api_version: MIN_API_VERSION, discrete: true, families: vec![compute_only, no_present] };
    assert_eq!(pick_device(&[d]), None);
}
