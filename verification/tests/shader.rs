use kexplore::shader::{shader_words, SPIRV_MAGIC};

fn module_le(words: &[u32]) -> Vec<u8> {
    words.iter().flat_map(|w| w.to_le_bytes()).collect()
}

fn module_be(words: &[u32]) -> Vec<u8> {
    words.iter().flat_map(|w| w.to_be_bytes()).collect()
}

#[test]
fn words_read_in_either_byte_order() {
    let words = [SPIRV_MAGIC, 0x0001_0300, 7, 0xdead_beef];
    assert_eq!(shader_words(&module_le(&words)), Ok(words.to_vec()));
    assert_eq!(shader_words(&module_be(&words)), Ok(words.to_vec()));
}

#[test]
fn bad_modules_say_why_as_the_graphics_crate_does() {
    let ragged = vec![3u8, 2, 0x23, 7, 1];
    let e = shader_words(&ragged).unwrap_err();
    assert_eq!(e, "input length not divisible by 4");
    let theirs = ash::util::read_spv(&mut std::io::Cursor::new(&ragged[..])).unwrap_err();
    assert_eq!(e, theirs.to_string());

    let no_magic = module_le(&[1, 2]);
    let e = shader_words(&no_magic).unwrap_err();
    assert_eq!(e, "input missing SPIR-V magic number");
    let theirs = ash::util::read_spv(&mut std::io::Cursor::new(&no_magic[..])).unwrap_err();
    assert_eq!(e, theirs.to_string());

    assert_eq!(shader_words(&[]).unwrap_err(), "input missing SPIR-V magic number");
}
