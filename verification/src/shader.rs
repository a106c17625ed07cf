//! Shader modules arrive as SPIR-V bytes; the graphics API takes them as
//! 32-bit words.

use vstd::prelude::*;

verus! {

#[verifier::external_type_specification]
#[verifier::external_body]
pub struct ExIoError(std::io::Error);

/// The first word of every SPIR-V module.
pub const SPIRV_MAGIC: u32 = 0x0723_0203;

/// Word `i` of `b` read least significant byte first.
pub open spec fn le_word(b: Seq<u8>, i: int) -> int {
    b[4 * i] + 256 * b[4 * i + 1] + 65536 * b[4 * i + 2] + 16777216 * b[4 * i + 3]
}

/// Word `i` of `b` read most significant byte first.
pub open spec fn be_word(b: Seq<u8>, i: int) -> int {
    b[4 * i + 3] + 256 * b[4 * i + 2] + 65536 * b[4 * i + 1] + 16777216 * b[4 * i]
}

/// The words of a SPIR-V module: the bytes taken four at a time, in
/// whichever byte order makes the first word the magic number. `None` where
/// the length is not a positive multiple of four, or neither order does.
pub open spec fn spirv_words(b: Seq<u8>) -> Option<Seq<u32>> {
    if b.len() % 4 != 0 || b.len() == 0 {
        None
    } else if le_word(b, 0) == SPIRV_MAGIC {
        Some(Seq::new(b.len() / 4, |i: int| le_word(b, i) as u32))
    } else if be_word(b, 0) == SPIRV_MAGIC {
        Some(Seq::new(b.len() / 4, |i: int| be_word(b, i) as u32))
    } else {
        None
    }
}

/// `ash::util::read_spv` over the bytes in memory. It reads the bytes as
/// words in the machine's byte order, swaps every word when the first one
/// is the byte-swapped magic number, and fails when the length is not a
/// multiple of four or the first word (after any swap) is not the magic
/// number; whichever the machine's order, that is `spirv_words`. Which
/// error it fails with is not stated.
#[verifier::external_body]
fn read_spv(bytes: &[u8]) -> (r: Result<Vec<u32>, std::io::Error>)
    ensures
        r is Ok <==> spirv_words(bytes@) is Some,
        r matches Ok(w) ==> spirv_words(bytes@) == Some(w@),
{
    ash::util::read_spv(&mut std::io::Cursor::new(bytes))
}

/// The words of a SPIR-V module given as bytes, or why they cannot be
/// read: the length is not a multiple of four, or the module does not start
/// with the magic number (in either byte order).
pub fn shader_words(bytes: &[u8]) -> (r: Result<Vec<u32>, String>)
    ensures
        r is Ok <==> spirv_words(bytes@) is Some,
        r matches Ok(w) ==> spirv_words(bytes@) == Some(w@),
        r matches Err(e) ==> e@ == (if bytes@.len() % 4 != 0 {
            "input length not divisible by 4"@
        } else {
            "input missing SPIR-V magic number"@
        }),
{
    match read_spv(bytes) {
        Ok(words) => Ok(words),
        Err(_) => {
            if bytes.len() % 4 != 0 {
                Err(String::from_str("input length not divisible by 4"))
            } else {
                Err(String::from_str("input missing SPIR-V magic number"))
            }
        },
    }
}

} // verus!
