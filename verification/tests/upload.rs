use ash::vk;
use ash::vk::Handle;
use kexplore::upload::{find_memory_type, staging_offsets, uploads_byte_size, PendingUpload};

fn up(len: usize) -> PendingUpload {
    PendingUpload {
        texture_image: vk::Image::from_raw(1),
        bytes: vec![0u8; len],
        x: 0,
        y: 0,
        width: 1,
        height: 1,
        initialized: true,
    }
}

#[test]
fn no_uploads_need_no_staging() {
    assert_eq!(uploads_byte_size(&[]), 0);
    assert!(staging_offsets(&[]).is_empty());
}

#[test]
fn each_upload_starts_four_byte_aligned() {
    let ups = vec![up(5), up(8), up(1), up(0), up(3)];
    assert_eq!(staging_offsets(&ups), vec![0, 8, 16, 20, 20]);
    assert_eq!(uploads_byte_size(&ups), 24);
}

#[test]
fn aligned_sizes_pack_tightly() {
    let ups = vec![up(4096), up(1024 * 1024)];
    assert_eq!(staging_offsets(&ups), vec![0, 4096]);
    assert_eq!(uploads_byte_size(&ups), 4096 + 1024 * 1024);
}

#[test]
fn staged_regions_are_disjoint() {
    let lens = [7usize, 1, 13, 4, 0, 9, 2];
    let ups: Vec<PendingUpload> = lens.iter().map(|&l| up(l)).collect();
    let offs = staging_offsets(&ups);
    let total = uploads_byte_size(&ups);
    for i in 0..ups.len() {
        assert_eq!(offs[i] % 4, 0);
        assert!(offs[i] + lens[i] as u64 <= total);
        if i + 1 < ups.len() {
            assert!(offs[i] + lens[i] as u64 <= offs[i + 1]);
        }
    }
}

#[test]
fn the_first_allowed_memory_type_with_all_flags_is_picked() {
    let flags = [0x1, 0x6, 0x7, 0x6];
    assert_eq!(find_memory_type(&flags, 0b1110, 0x6), Ok(1));
    assert_eq!(find_memory_type(&flags, 0b1100, 0x6), Ok(2));
    assert_eq!(find_memory_type(&flags, 0b1111, 0x1), Ok(0));
    assert_eq!(find_memory_type(&flags, 0b0001, 0x6), Err("no suitable memory type".to_string()));
    assert_eq!(find_memory_type(&[], u32::MAX, 0), Err("no suitable memory type".to_string()));
}
