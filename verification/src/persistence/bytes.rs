//! Pieces of byte strings, and their checksums.
use vstd::bytes::{
    spec_u32_from_le_bytes, spec_u64_from_le_bytes, u32_from_le_bytes, u64_from_le_bytes,
};
use vstd::prelude::*;
use vstd::slice::slice_subrange;

verus! {

/// The CRC-32 checksum of bytes, as `crc32fast::hash` gives it.
pub uninterp spec fn crc32_of(bytes: Seq<u8>) -> u32;

/// The BLAKE3 hash of bytes, as `blake3::hash` gives it.
pub uninterp spec fn blake3_of(bytes: Seq<u8>) -> [u8; 32];

/// `crc32fast::hash`: the checksum depends on the bytes alone. Nothing else is
/// claimed of it.
#[verifier::external_body]
pub(crate) fn crc32(bytes: &Vec<u8>) -> (r: u32)
    ensures
        r == crc32_of(bytes@),
{
    crc32fast::hash(bytes)
}

/// `blake3::hash`: the hash depends on the bytes alone. Nothing else is claimed
/// of it.
#[verifier::external_body]
pub(crate) fn blake3_hash(bytes: &Vec<u8>) -> (r: [u8; 32])
    ensures
        r == blake3_of(bytes@),
{
    *blake3::hash(bytes).as_bytes()
}

/// Adds bytes at the end.
pub fn push_bytes(out: &mut Vec<u8>, more: &[u8])
    ensures
        final(out)@ == old(out)@ + more@,
{
    let ghost start = out@;
    let mut i: usize = 0;
    assert(start + more@.take(0) =~= start);
    while i < more.len()
        invariant
            i <= more@.len(),
            out@ == start + more@.take(i as int),
        decreases more@.len() - i,
    {
        out.push(more[i]);
        i += 1;
        assert(more@.take(i as int) =~= more@.take(i - 1).push(more@[i - 1]));
    }
    assert(more@.take(i as int) =~= more@);
}

/// The bytes from `from` to before `to`.
pub fn part(bytes: &Vec<u8>, from: usize, to: usize) -> (r: Vec<u8>)
    requires
        from <= to <= bytes@.len(),
    ensures
        r@ == bytes@.subrange(from as int, to as int),
{
    let mut r: Vec<u8> = Vec::new();
    let mut i: usize = from;
    while i < to
        invariant
            from <= i <= to <= bytes@.len(),
            r@ == bytes@.subrange(from as int, i as int),
        decreases to - i,
    {
        r.push(bytes[i]);
        i += 1;
        assert(bytes@.subrange(from as int, i as int) =~= bytes@.subrange(
            from as int,
            i - 1,
        ).push(bytes@[i - 1]));
    }
    r
}

/// True iff the two are equal.
pub fn same_bytes(a: &[u8], b: &[u8]) -> (r: bool)
    ensures
        r == (a@ == b@),
{
    if a.len() != b.len() {
        return false;
    }
    let mut i: usize = 0;
    while i < a.len()
        invariant
            i <= a@.len(),
            a@.len() == b@.len(),
            forall|k: int| 0 <= k < i ==> a@[k] == b@[k],
        decreases a@.len() - i,
    {
        if a[i] != b[i] {
            return false;
        }
        i += 1;
    }
    assert(a@ =~= b@);
    true
}

/// The 32-bit number that stands at `from`.
pub open spec fn word_at(bytes: Seq<u8>, from: int) -> u32 {
    spec_u32_from_le_bytes(bytes.subrange(from, from + 4))
}

/// The 64-bit number that stands at `from`.
pub open spec fn long_at(bytes: Seq<u8>, from: int) -> u64 {
    spec_u64_from_le_bytes(bytes.subrange(from, from + 8))
}

/// The 32-bit number that stands at `from`.
pub fn read_word(bytes: &Vec<u8>, from: usize) -> (r: u32)
    requires
        from + 4 <= bytes@.len(),
    ensures
        r == word_at(bytes@, from as int),
{
    let n = bytes.len();
    u32_from_le_bytes(slice_subrange(bytes.as_slice(), from, from + 4))
}

/// The 64-bit number that stands at `from`.
pub fn read_long(bytes: &Vec<u8>, from: usize) -> (r: u64)
    requires
        from + 8 <= bytes@.len(),
    ensures
        r == long_at(bytes@, from as int),
{
    let n = bytes.len();
    u64_from_le_bytes(slice_subrange(bytes.as_slice(), from, from + 8))
}

} // verus!
