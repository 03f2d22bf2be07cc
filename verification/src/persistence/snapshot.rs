//! The layout of snapshots.
//!
//! ```text
//! [8]   the mark of a snapshot
//! [4]   version
//! [8]   tick
//! [4]   length of the body
//! [N]   the body
//! [32]  BLAKE3 hash of the body
//! ```
//! Numbers have their lowest byte first.
use vstd::bytes::{
    lemma_auto_spec_u32_to_from_le_bytes, lemma_auto_spec_u64_to_from_le_bytes,
    spec_u32_to_le_bytes, spec_u64_to_le_bytes, u32_to_le_bytes, u64_to_le_bytes,
};
use vstd::prelude::*;

use crate::persistence::bytes::{
    blake3_hash, blake3_of, long_at, part, push_bytes, read_long, read_word, same_bytes, word_at,
};
use crate::persistence::format::{snapshot_magic, snapshot_mark, FORMAT_VERSION, MAGIC_LEN};

verus! {

/// Length of what comes before the body.
pub const SNAPSHOT_HEADER_LEN: usize = 24;

/// Length of the hash.
pub const HASH_LEN: usize = 32;

/// A snapshot of a body at a tick.
pub open spec fn snapshot_bytes(tick: u64, body: Seq<u8>) -> Seq<u8> {
    snapshot_mark() + spec_u32_to_le_bytes(FORMAT_VERSION) + spec_u64_to_le_bytes(tick)
        + spec_u32_to_le_bytes(body.len() as u32) + body + blake3_of(body)@
}

/// The parts of a snapshot.
#[derive(Clone, Copy, Debug, PartialEq, Eq, Structural)]
pub enum SnapshotField {
    Magic,
    Version,
    Tick,
    BodyLen,
    Body,
    Hash,
}

/// Why a snapshot cannot be written or read.
#[derive(Clone, Copy, Debug, PartialEq, Eq, Structural)]
pub enum SnapshotError {
    /// The body is longer than a snapshot can say.
    BodyTooLarge,
    /// The file ends within the given part.
    Truncated(SnapshotField),
    MagicMismatch,
    UnsupportedVersion(u32),
    /// The body is not the one that was written.
    HashMismatch,
}

/// What a snapshot holds.
#[derive(Debug)]
pub struct SnapshotFrame {
    pub tick: u64,
    pub body: Vec<u8>,
    /// How many bytes come after the hash; they mean nothing.
    pub trailing: usize,
}

/// A snapshot of a body at a tick, or none where the body is too long.
pub fn write_snapshot_to_vec(tick: u64, body: &Vec<u8>) -> (r: Result<Vec<u8>, SnapshotError>)
    ensures
        match r {
            Ok(bytes) => body@.len() <= u32::MAX && bytes@ == snapshot_bytes(tick, body@),
            Err(e) => body@.len() > u32::MAX && e == SnapshotError::BodyTooLarge,
        },
{
    let hash = blake3_hash(body);
    if body.len() > u32::MAX as usize {
        return Err(SnapshotError::BodyTooLarge);
    }
    let mut out = snapshot_magic();
    push_bytes(&mut out, u32_to_le_bytes(FORMAT_VERSION).as_slice());
    push_bytes(&mut out, u64_to_le_bytes(tick).as_slice());
    push_bytes(&mut out, u32_to_le_bytes(body.len() as u32).as_slice());
    push_bytes(&mut out, body.as_slice());
    push_bytes(&mut out, hash.as_slice());
    Ok(out)
}

/// The body of a snapshot.
pub open spec fn body_at(bytes: Seq<u8>) -> Seq<u8> {
    bytes.subrange(24, 24 + word_at(bytes, 20))
}

/// The hash of a snapshot.
pub open spec fn hash_at(bytes: Seq<u8>) -> Seq<u8> {
    bytes.subrange(24 + word_at(bytes, 20), 24 + word_at(bytes, 20) + 32)
}

/// What is wrong with a snapshot, if anything: its parts are looked at in
/// order, and the first that is not there or not right counts.
pub open spec fn snapshot_fault(bytes: Seq<u8>) -> Option<SnapshotError> {
    if bytes.len() < 8 {
        Some(SnapshotError::Truncated(SnapshotField::Magic))
    } else if bytes.take(8) != snapshot_mark() {
        Some(SnapshotError::MagicMismatch)
    } else if bytes.len() < 12 {
        Some(SnapshotError::Truncated(SnapshotField::Version))
    } else if word_at(bytes, 8) != FORMAT_VERSION {
        Some(SnapshotError::UnsupportedVersion(word_at(bytes, 8)))
    } else if bytes.len() < 20 {
        Some(SnapshotError::Truncated(SnapshotField::Tick))
    } else if bytes.len() < 24 {
        Some(SnapshotError::Truncated(SnapshotField::BodyLen))
    } else if bytes.len() < 24 + word_at(bytes, 20) {
        Some(SnapshotError::Truncated(SnapshotField::Body))
    } else if bytes.len() < 24 + word_at(bytes, 20) + 32 {
        Some(SnapshotError::Truncated(SnapshotField::Hash))
    } else if hash_at(bytes) != blake3_of(body_at(bytes))@ {
        Some(SnapshotError::HashMismatch)
    } else {
        None
    }
}

/// Reads a snapshot.
pub fn read_snapshot(bytes: &Vec<u8>) -> (r: Result<SnapshotFrame, SnapshotError>)
    ensures
        match r {
            Ok(f) => snapshot_fault(bytes@) is None && f.tick == long_at(bytes@, 12) && f.body@
                == body_at(bytes@) && f.trailing == bytes@.len() - (24 + f.body@.len() + 32),
            Err(e) => snapshot_fault(bytes@) == Some(e),
        },
{
    if bytes.len() < MAGIC_LEN {
        return Err(SnapshotError::Truncated(SnapshotField::Magic));
    }
    let mark = part(bytes, 0, MAGIC_LEN);
    assert(bytes@.subrange(0, 8) =~= bytes@.take(8));
    if !same_bytes(mark.as_slice(), snapshot_magic().as_slice()) {
        return Err(SnapshotError::MagicMismatch);
    }
    if bytes.len() < 12 {
        return Err(SnapshotError::Truncated(SnapshotField::Version));
    }
    let version = read_word(bytes, 8);
    if version != FORMAT_VERSION {
        return Err(SnapshotError::UnsupportedVersion(version));
    }
    if bytes.len() < 20 {
        return Err(SnapshotError::Truncated(SnapshotField::Tick));
    }
    let tick = read_long(bytes, 12);
    if bytes.len() < SNAPSHOT_HEADER_LEN {
        return Err(SnapshotError::Truncated(SnapshotField::BodyLen));
    }
    let len: usize = read_word(bytes, 20) as usize;
    if bytes.len() - SNAPSHOT_HEADER_LEN < len {
        return Err(SnapshotError::Truncated(SnapshotField::Body));
    }
    let end: usize = SNAPSHOT_HEADER_LEN + len;
    if bytes.len() - end < HASH_LEN {
        return Err(SnapshotError::Truncated(SnapshotField::Hash));
    }
    let body = part(bytes, SNAPSHOT_HEADER_LEN, end);
    let hash = part(bytes, end, end + HASH_LEN);
    let actual = blake3_hash(&body);
    if !same_bytes(actual.as_slice(), hash.as_slice()) {
        return Err(SnapshotError::HashMismatch);
    }
    Ok(SnapshotFrame { tick, body, trailing: bytes.len() - end - HASH_LEN })
}

/// A snapshot that was written is read: the tick and the body come back, and
/// bytes after the end do no harm.
pub proof fn law_snapshot_reads_back(tick: u64, body: Seq<u8>, after: Seq<u8>)
    requires
        body.len() <= u32::MAX,
    ensures
        ({
            let all = snapshot_bytes(tick, body) + after;
            &&& snapshot_fault(all) is None
            &&& long_at(all, 12) == tick
            &&& body_at(all) == body
        }),
{
    lemma_auto_spec_u32_to_from_le_bytes();
    lemma_auto_spec_u64_to_from_le_bytes();
    let all = snapshot_bytes(tick, body) + after;
    let len = body.len() as u32;
    assert(spec_u32_to_le_bytes(FORMAT_VERSION).len() == 4);
    assert(spec_u64_to_le_bytes(tick).len() == 8);
    assert(spec_u32_to_le_bytes(len).len() == 4);
    assert(all.take(8) =~= snapshot_mark());
    assert(all.subrange(8, 12) =~= spec_u32_to_le_bytes(FORMAT_VERSION));
    assert(all.subrange(12, 20) =~= spec_u64_to_le_bytes(tick));
    assert(all.subrange(20, 24) =~= spec_u32_to_le_bytes(len));
    assert(all.subrange(24, 24 + len) =~= body);
    assert(all.subrange(24 + len, 24 + len + 32) =~= blake3_of(body)@);
}

/// A snapshot whose body is not the one that was written is refused, unless
/// the two have one hash.
pub proof fn law_altered_body_is_refused(
    tick: u64,
    body: Seq<u8>,
    other: Seq<u8>,
    after: Seq<u8>,
)
    requires
        other.len() <= u32::MAX,
        blake3_of(other)@ != blake3_of(body)@,
    ensures
        snapshot_fault(
            snapshot_mark() + spec_u32_to_le_bytes(FORMAT_VERSION) + spec_u64_to_le_bytes(tick)
                + spec_u32_to_le_bytes(other.len() as u32) + other + blake3_of(body)@ + after,
        ) == Some(SnapshotError::HashMismatch),
{
    lemma_auto_spec_u32_to_from_le_bytes();
    lemma_auto_spec_u64_to_from_le_bytes();
    let len = other.len() as u32;
    let all = snapshot_mark() + spec_u32_to_le_bytes(FORMAT_VERSION) + spec_u64_to_le_bytes(tick)
        + spec_u32_to_le_bytes(len) + other + blake3_of(body)@ + after;
    assert(spec_u32_to_le_bytes(FORMAT_VERSION).len() == 4);
    assert(spec_u64_to_le_bytes(tick).len() == 8);
    assert(spec_u32_to_le_bytes(len).len() == 4);
    assert(all.take(8) =~= snapshot_mark());
    assert(all.subrange(8, 12) =~= spec_u32_to_le_bytes(FORMAT_VERSION));
    assert(all.subrange(20, 24) =~= spec_u32_to_le_bytes(len));
    assert(all.subrange(24, 24 + len) =~= other);
    assert(all.subrange(24 + len, 24 + len + 32) =~= blake3_of(body)@);
}

/// A snapshot that was cut short is not taken for a whole one.
pub proof fn law_cut_snapshot_is_refused(tick: u64, body: Seq<u8>, cut: int)
    requires
        body.len() <= u32::MAX,
        0 <= cut < snapshot_bytes(tick, body).len(),
    ensures
        snapshot_fault(snapshot_bytes(tick, body).take(cut)) is Some,
{
    lemma_auto_spec_u32_to_from_le_bytes();
    lemma_auto_spec_u64_to_from_le_bytes();
    let whole = snapshot_bytes(tick, body);
    let all = whole.take(cut);
    let len = body.len() as u32;
    assert(spec_u32_to_le_bytes(FORMAT_VERSION).len() == 4);
    assert(spec_u64_to_le_bytes(tick).len() == 8);
    assert(spec_u32_to_le_bytes(len).len() == 4);
    if cut >= 24 {
        assert(all.subrange(20, 24) =~= spec_u32_to_le_bytes(len));
    }
}

/// Where everything stands in a snapshot: eight letters, the version in four
/// bytes, the tick in eight, the length of the body in four, the body, and 32
/// bytes of hash. Numbers begin with their least byte.
pub proof fn law_snapshot_layout(tick: u64, body: Seq<u8>)
    requires
        body.len() <= u32::MAX,
    ensures
        ({
            let all = snapshot_bytes(tick, body);
            &&& all.len() == 56 + body.len()
            &&& all[0] == 'S' as u8 && all[1] == 'I' as u8 && all[2] == 'M' as u8 && all[3]
                == 'N' as u8 && all[4] == 'S' as u8 && all[5] == 'A' as u8 && all[6] == 'V' as u8
                && all[7] == 'E' as u8
            &&& all.subrange(8, 12) == spec_u32_to_le_bytes(FORMAT_VERSION)
            &&& all.subrange(12, 20) == spec_u64_to_le_bytes(tick)
            &&& all.subrange(20, 24) == spec_u32_to_le_bytes(body.len() as u32)
            &&& all.subrange(24, 24 + body.len() as int) == body
            &&& all.skip(24 + body.len() as int) == blake3_of(body)@
        }),
{
    lemma_auto_spec_u32_to_from_le_bytes();
    lemma_auto_spec_u64_to_from_le_bytes();
    let all = snapshot_bytes(tick, body);
    let len = body.len() as u32;
    assert(spec_u32_to_le_bytes(FORMAT_VERSION).len() == 4);
    assert(spec_u64_to_le_bytes(tick).len() == 8);
    assert(spec_u32_to_le_bytes(len).len() == 4);
    assert(all.subrange(8, 12) =~= spec_u32_to_le_bytes(FORMAT_VERSION));
    assert(all.subrange(12, 20) =~= spec_u64_to_le_bytes(tick));
    assert(all.subrange(20, 24) =~= spec_u32_to_le_bytes(len));
    assert(all.subrange(24, 24 + body.len() as int) =~= body);
    assert(all.skip(24 + body.len() as int) =~= blake3_of(body)@);
}

/// What is wrong with a snapshot is told by its first part that is cut off or
/// not right.
pub proof fn law_first_fault_is_told(bytes: Seq<u8>)
    ensures
        ({
            let f = snapshot_fault(bytes);
            &&& bytes.len() < 8 <==> f == Some(SnapshotError::Truncated(SnapshotField::Magic))
            &&& f == Some(SnapshotError::MagicMismatch) ==> bytes.len() >= 8 && bytes.take(8)
                != snapshot_mark()
            &&& bytes.len() >= 8 && bytes.take(8) != snapshot_mark() ==> f == Some(
                SnapshotError::MagicMismatch,
            )
            &&& bytes.take(8) == snapshot_mark() && bytes.len() >= 12 && word_at(bytes, 8)
                != FORMAT_VERSION ==> f == Some(
                SnapshotError::UnsupportedVersion(word_at(bytes, 8)),
            )
            &&& f is None ==> bytes.len() >= 24 && bytes.len() >= 56 + word_at(bytes, 20)
                && bytes.take(8) == snapshot_mark() && word_at(bytes, 8) == FORMAT_VERSION
                && hash_at(bytes) == blake3_of(body_at(bytes))@
        }),
{
}

} // verus!
