//! Staging-buffer layout for texture uploads. Every pending upload's pixels
//! are copied into one host-visible staging buffer, back to back, each start
//! rounded up to four bytes (buffer-to-image copies want that alignment);
//! recording the copy commands themselves stays with the renderer.

use vstd::prelude::*;

verus! {

#[verifier::external_type_specification]
#[verifier::external_body]
pub struct ExImage(ash::vk::Image);

/// A texture region waiting to be filled from the staging buffer.
pub struct PendingUpload {
    pub texture_image: ash::vk::Image,
    pub bytes: Vec<u8>,
    pub x: u32,
    pub y: u32,
    pub width: u32,
    pub height: u32,
    /// Whether the image is in SHADER_READ_ONLY layout already (false for a
    /// freshly created texture in UNDEFINED layout).
    pub initialized: bool,
}

/// `n` rounded up to a multiple of four.
pub open spec fn align4(n: int) -> int {
    (n + 3) - (n + 3) % 4
}

/// Bytes the staging buffer needs for `ups`: each upload appended after the
/// previous one, the running end rounded up to four bytes after each.
pub open spec fn staged_size(ups: Seq<PendingUpload>) -> int
    decreases ups.len(),
{
    if ups.len() == 0 {
        0
    } else {
        align4(staged_size(ups.drop_last()) + ups.last().bytes@.len())
    }
}

/// Where upload `k`'s bytes start in the staging buffer.
pub open spec fn staged_offset(ups: Seq<PendingUpload>, k: int) -> int {
    staged_size(ups.take(k))
}

proof fn lemma_align4(n: int)
    requires
        n >= 0,
    ensures
        n <= align4(n) <= n + 3,
        align4(n) % 4 == 0,
{
}

proof fn lemma_staged_size_step(ups: Seq<PendingUpload>, k: int)
    requires
        0 <= k < ups.len(),
    ensures
        staged_size(ups.take(k + 1)) == align4(staged_size(ups.take(k)) + ups[k].bytes@.len()),
{
    assert(ups.take(k + 1).drop_last() =~= ups.take(k));
}

proof fn lemma_staged_size_nonneg(ups: Seq<PendingUpload>)
    ensures
        staged_size(ups) >= 0,
        staged_size(ups) % 4 == 0,
    decreases ups.len(),
{
    if ups.len() > 0 {
        lemma_staged_size_nonneg(ups.drop_last());
        lemma_align4(staged_size(ups.drop_last()) + ups.last().bytes@.len());
    }
}

/// The staged size only grows as uploads are added.
proof fn lemma_staged_size_monotone(ups: Seq<PendingUpload>, i: int, j: int)
    requires
        0 <= i <= j <= ups.len(),
    ensures
        staged_size(ups.take(i)) <= staged_size(ups.take(j)),
    decreases j - i,
{
    if i < j {
        lemma_staged_size_monotone(ups, i, j - 1);
        lemma_staged_size_step(ups, j - 1);
        lemma_staged_size_nonneg(ups.take(j - 1));
        lemma_align4(staged_size(ups.take(j - 1)) + ups[j - 1].bytes@.len());
    }
}

/// `(t + 3) & !3` for a `t` that leaves room for the `+ 3`.
fn round_up4(t: u64) -> (r: u64)
    requires
        t + 3 <= u64::MAX,
    ensures
        r == align4(t as int),
{
    let s = t + 3;
    let r = s & !3u64;
    assert(r == s - s % 4) by (bit_vector)
        requires
            r == s & !3u64,
    ;
    r
}

/// Total staging bytes for `uploads` (each start kept 4-byte aligned).
pub fn uploads_byte_size(uploads: &[PendingUpload]) -> (total: u64)
    requires
        staged_size(uploads@) <= u64::MAX,
    ensures
        total == staged_size(uploads@),
{
    let mut total: u64 = 0;
    let mut k: usize = 0;
    proof {
        assert(uploads@.take(0) =~= Seq::<PendingUpload>::empty());
    }
    while k < uploads.len()
        invariant
            k <= uploads@.len(),
            staged_size(uploads@) <= u64::MAX,
            total == staged_size(uploads@.take(k as int)),
        decreases uploads@.len() - k,
    {
        proof {
            lemma_staged_size_step(uploads@, k as int);
            lemma_staged_size_monotone(uploads@, k + 1, uploads@.len() as int);
            assert(uploads@.take(uploads@.len() as int) =~= uploads@);
            lemma_staged_size_nonneg(uploads@);
            lemma_align4(total + uploads@[k as int].bytes@.len());
        }
        let len = uploads[k].bytes.len() as u64;
        total = round_up4(total + len);
        k = k + 1;
    }
    proof {
        assert(uploads@.take(k as int) =~= uploads@);
    }
    total
}

/// The staging offset of each upload, in order: where `record_uploads`
/// copies its bytes and where the buffer-to-image copy reads them.
pub fn staging_offsets(uploads: &[PendingUpload]) -> (offsets: Vec<u64>)
    requires
        staged_size(uploads@) <= u64::MAX,
    ensures
        offsets@.len() == uploads@.len(),
        forall|k: int| 0 <= k < uploads@.len() ==> offsets@[k] == staged_offset(uploads@, k),
{
    let mut offsets: Vec<u64> = Vec::new();
    let mut total: u64 = 0;
    let mut k: usize = 0;
    proof {
        assert(uploads@.take(0) =~= Seq::<PendingUpload>::empty());
    }
    while k < uploads.len()
        invariant
            k <= uploads@.len(),
            staged_size(uploads@) <= u64::MAX,
            total == staged_size(uploads@.take(k as int)),
            offsets@.len() == k,
            forall|q: int| 0 <= q < k ==> offsets@[q] == staged_offset(uploads@, q),
        decreases uploads@.len() - k,
    {
        proof {
            lemma_staged_size_step(uploads@, k as int);
            lemma_staged_size_monotone(uploads@, k + 1, uploads@.len() as int);
            assert(uploads@.take(uploads@.len() as int) =~= uploads@);
            lemma_staged_size_nonneg(uploads@);
            lemma_align4(total + uploads@[k as int].bytes@.len());
        }
        offsets.push(total);
        let len = uploads[k].bytes.len() as u64;
        total = round_up4(total + len);
        k = k + 1;
    }
    offsets
}

/// Staged uploads never overlap: each one's bytes start on a 4-byte
/// boundary, end before any later upload starts, and lie inside the
/// buffer that `uploads_byte_size` sizes.
pub proof fn law_staged_uploads_disjoint(ups: Seq<PendingUpload>, i: int, j: int)
    requires
        0 <= i < j < ups.len(),
    ensures
        staged_offset(ups, i) % 4 == 0,
        staged_offset(ups, i) + ups[i].bytes@.len() <= staged_offset(ups, j),
        staged_offset(ups, j) + ups[j].bytes@.len() <= staged_size(ups),
{
    lemma_staged_size_nonneg(ups.take(i));
    lemma_staged_size_step(ups, i);
    lemma_align4(staged_offset(ups, i) + ups[i].bytes@.len());
    lemma_staged_size_monotone(ups, i + 1, j);
    lemma_staged_size_step(ups, j);
    lemma_staged_size_nonneg(ups.take(j));
    lemma_align4(staged_offset(ups, j) + ups[j].bytes@.len());
    lemma_staged_size_monotone(ups, j + 1, ups.len() as int);
    assert(ups.take(ups.len() as int) =~= ups);
}

/// Memory type `i` qualifies: allowed by the resource's `type_bits` mask
/// and having every property flag in `wanted`.
pub open spec fn memory_type_fits(type_flags: Seq<u32>, type_bits: u32, wanted: u32, i: int) -> bool {
    &&& 0 <= i < type_flags.len()
    &&& (type_bits >> (i as u32)) & 1 == 1
    &&& type_flags[i] & wanted == wanted
}

/// The first memory type (by index) that a resource allowing `type_bits`
/// can use with all of `wanted`'s property flags; `type_flags[i]` are the
/// property flags of memory type `i` (at most 32 types exist).
pub fn find_memory_type(type_flags: &[u32], type_bits: u32, wanted: u32) -> (r: Result<u32, String>)
    requires
        type_flags@.len() <= 32,
    ensures
        match r {
            Ok(i) => memory_type_fits(type_flags@, type_bits, wanted, i as int) && forall|j: int|
                0 <= j < i ==> !memory_type_fits(type_flags@, type_bits, wanted, j),
            Err(e) => e@ == "no suitable memory type"@ && forall|j: int|
                0 <= j < type_flags@.len() ==> !memory_type_fits(type_flags@, type_bits, wanted, j),
        },
{
    let n = type_flags.len() as u32;
    let mut i: u32 = 0;
    while i < n
        invariant
            n == type_flags@.len(),
            n <= 32,
            i <= n,
            forall|j: int| 0 <= j < i ==> !memory_type_fits(type_flags@, type_bits, wanted, j),
        decreases n - i,
    {
        let allowed = (type_bits >> i) & 1 == 1;
        if allowed && type_flags[i as usize] & wanted == wanted {
            return Ok(i);
        }
        i = i + 1;
    }
    Err(String::from_str("no suitable memory type"))
}

} // verus!
