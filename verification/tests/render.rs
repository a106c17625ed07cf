use ash::vk;
use ash::vk::Handle;
use kexplore::render::{grown_size, vertex_offsets, DrawRange, DrawRanges, Phase, Rgba, TexSets, TexSlot};

#[test]
fn missing_slots_fall_back_to_the_atlas() {
    let atlas = vk::DescriptorSet::from_raw(1);
    let scene = vk::DescriptorSet::from_raw(3);
    let previews = [vk::DescriptorSet::from_raw(10), vk::DescriptorSet::from_raw(11)];
    let icons = vk::DescriptorSet::from_raw(5);
    let sets = TexSets { atlas, icons: Some(icons), previews: &previews, scene: Some(scene), blur: None };
    assert_eq!(sets.get(TexSlot::Atlas), atlas);
    assert_eq!(sets.get(TexSlot::Icons), icons);
    assert_eq!(sets.get(TexSlot::Preview(1)), previews[1]);
    assert_eq!(sets.get(TexSlot::Preview(2)), atlas);
    assert_eq!(sets.get(TexSlot::Scene), scene);
    assert_eq!(sets.get(TexSlot::Blur), atlas);
}

#[test]
fn white_is_opaque_white() {
    assert_eq!(Rgba::white(), Rgba([255, 255, 255, 255]));
    assert!(Phase::Upload != Phase::Scene);
}

#[test]
fn ranges_split_by_texture() {
    let mut r = DrawRanges::new();
    assert_eq!(r.ranges().clone(), vec![DrawRange { first: 0, count: 0, tex: TexSlot::Atlas }]);
    // An empty run is retargeted rather than closed.
    r.require_tex(TexSlot::Scene);
    assert_eq!(r.ranges().clone(), vec![DrawRange { first: 0, count: 0, tex: TexSlot::Scene }]);
    r.add(6);
    r.require_tex(TexSlot::Scene);
    r.add(6);
    r.require_tex(TexSlot::Atlas);
    r.add(12);
    r.require_tex(TexSlot::Preview(4));
    assert_eq!(
        r.ranges().clone(),
        vec![
            DrawRange { first: 0, count: 12, tex: TexSlot::Scene },
            DrawRange { first: 12, count: 12, tex: TexSlot::Atlas },
            DrawRange { first: 24, count: 0, tex: TexSlot::Preview(4) },
        ]
    );
}

#[test]
fn buffers_grow_to_the_next_power_of_two() {
    assert_eq!(grown_size(100, 256), None);
    assert_eq!(grown_size(256, 256), None);
    assert_eq!(grown_size(257, 256), Some(512));
    assert_eq!(grown_size(1, 0), Some(1));
    assert_eq!(grown_size(1 << 20, 1000), Some(1 << 20));
    assert_eq!(grown_size(1 << 63, 0), Some(1 << 63));
}

#[test]
fn lists_are_laid_out_back_to_back() {
    assert_eq!(vertex_offsets(&[6, 0, 12, 3]), vec![0, 6, 6, 18]);
    assert!(vertex_offsets(&[]).is_empty());
}
