//! What save files begin with.
use vstd::prelude::*;

verus! {

/// Version of the layout of save files.
pub const FORMAT_VERSION: u32 = 25;

/// Length of the marks that save files begin with.
pub const MAGIC_LEN: usize = 8;

/// What a snapshot begins with: the letters `SIMNSAVE`.
pub open spec fn snapshot_mark() -> Seq<u8> {
    seq![0x53u8, 0x49u8, 0x4du8, 0x4eu8, 0x53u8, 0x41u8, 0x56u8, 0x45u8]
}

/// What a journal begins with: the letters `NSPHJRNL`.
pub open spec fn journal_mark() -> Seq<u8> {
    seq![0x4eu8, 0x53u8, 0x50u8, 0x48u8, 0x4au8, 0x52u8, 0x4eu8, 0x4cu8]
}

/// What a snapshot begins with.
pub fn snapshot_magic() -> (r: Vec<u8>)
    ensures
        r@ == snapshot_mark(),
        r@.len() == MAGIC_LEN,
{
    let r: Vec<u8> = vec![0x53, 0x49, 0x4d, 0x4e, 0x53, 0x41, 0x56, 0x45];
    assert(r@ =~= snapshot_mark());
    r
}

/// What a journal begins with.
pub fn journal_magic() -> (r: Vec<u8>)
    ensures
        r@ == journal_mark(),
        r@.len() == MAGIC_LEN,
{
    let r: Vec<u8> = vec![0x4e, 0x53, 0x50, 0x48, 0x4a, 0x52, 0x4e, 0x4c];
    assert(r@ =~= journal_mark());
    r
}

/// The two marks differ, so that neither kind of file passes for the other.
pub proof fn law_marks_differ()
    ensures
        snapshot_mark() != journal_mark(),
{
    assert(snapshot_mark()[0] != journal_mark()[0]);
}

} // verus!
