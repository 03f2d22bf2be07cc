//! The layout of journals: a header and then records, each with its length
//! and a checksum.
//!
//! ```text
//! [8]  the mark of a journal
//! [4]  version
//! [8]  tick of the snapshot that the journal goes with
//! then any number of records:
//!   [4]  length of what is recorded
//!   [N]  what is recorded
//!   [4]  CRC-32 of what is recorded
//! ```
//! Numbers have their lowest byte first.
use vstd::bytes::{
    lemma_auto_spec_u32_to_from_le_bytes, lemma_auto_spec_u64_to_from_le_bytes,
    spec_u32_to_le_bytes, spec_u64_to_le_bytes, u32_to_le_bytes, u64_to_le_bytes,
};
use vstd::prelude::*;

use crate::persistence::bytes::{
    crc32, crc32_of, long_at, part, push_bytes, read_long, read_word, same_bytes, word_at,
};
use crate::persistence::format::{journal_magic, journal_mark, FORMAT_VERSION, MAGIC_LEN};

verus! {

/// Length of a journal's header.
pub const JOURNAL_HEADER_LEN: usize = 20;

/// Records of more bytes than this are taken for garbage when read.
pub const MAX_RECORD_LEN: u32 = 16_777_216;

/// The header of a journal.
pub open spec fn header_bytes(snapshot_tick: u64) -> Seq<u8> {
    journal_mark() + spec_u32_to_le_bytes(FORMAT_VERSION) + spec_u64_to_le_bytes(snapshot_tick)
}

/// One record.
pub open spec fn record_bytes(payload: Seq<u8>) -> Seq<u8> {
    spec_u32_to_le_bytes(payload.len() as u32) + payload + spec_u32_to_le_bytes(crc32_of(payload))
}

/// Records one after the other.
pub open spec fn all_records(payloads: Seq<Seq<u8>>) -> Seq<u8>
    decreases payloads.len(),
{
    if payloads.len() == 0 {
        Seq::empty()
    } else {
        record_bytes(payloads[0]) + all_records(payloads.drop_first())
    }
}

/// An intact record stands at `from`.
pub open spec fn record_at(bytes: Seq<u8>, from: int) -> bool {
    &&& 0 <= from
    &&& from + 4 <= bytes.len()
    &&& word_at(bytes, from) <= MAX_RECORD_LEN
    &&& from + 4 + word_at(bytes, from) + 4 <= bytes.len()
    &&& word_at(bytes, from + 4 + word_at(bytes, from)) == crc32_of(payload_at(bytes, from))
}

/// What the record at `from` records.
pub open spec fn payload_at(bytes: Seq<u8>, from: int) -> Seq<u8> {
    bytes.subrange(from + 4, from + 4 + word_at(bytes, from))
}

/// What the intact records from `from` on record, up to the first that is not
/// intact.
pub open spec fn records_from(bytes: Seq<u8>, from: int) -> Seq<Seq<u8>>
    decreases bytes.len() - from,
{
    if record_at(bytes, from) {
        seq![payload_at(bytes, from)] + records_from(bytes, from + 8 + word_at(bytes, from))
    } else {
        Seq::empty()
    }
}

/// The file begins as a journal of this version does.
pub open spec fn is_journal(bytes: Seq<u8>) -> bool {
    &&& bytes.len() >= JOURNAL_HEADER_LEN
    &&& bytes.take(8) == journal_mark()
    &&& word_at(bytes, 8) == FORMAT_VERSION
}

/// What a journal tells: the tick of its snapshot and what its intact records
/// record. A file that is none tells nothing.
pub open spec fn journal_of(bytes: Seq<u8>) -> (u64, Seq<Seq<u8>>) {
    if is_journal(bytes) {
        (long_at(bytes, 12), records_from(bytes, JOURNAL_HEADER_LEN as int))
    } else {
        (0, Seq::empty())
    }
}

/// What lists of bytes hold.
pub open spec fn contents(v: Seq<Vec<u8>>) -> Seq<Seq<u8>> {
    Seq::new(v.len(), |i: int| v[i]@)
}

/// Why the header of a journal cannot be read.
#[derive(Clone, Copy, Debug, PartialEq, Eq, Structural)]
pub enum JournalError {
    /// The file ends too early.
    Truncated,
    MagicMismatch,
    UnsupportedVersion(u32),
}

/// More was to be recorded than a record can hold.
#[derive(Clone, Copy, Debug, PartialEq, Eq, Structural)]
pub struct RecordTooLarge;

/// The header of a journal.
pub fn journal_header(snapshot_tick: u64) -> (r: Vec<u8>)
    ensures
        r@ == header_bytes(snapshot_tick),
        r@.len() == JOURNAL_HEADER_LEN,
{
    let mut out = journal_magic();
    push_bytes(&mut out, u32_to_le_bytes(FORMAT_VERSION).as_slice());
    push_bytes(&mut out, u64_to_le_bytes(snapshot_tick).as_slice());
    out
}

/// True iff a journal has to be begun anew: there is none, or it goes with
/// another snapshot.
pub fn needs_header(existing_tick: Option<u64>, snapshot_tick: u64) -> (r: bool)
    ensures
        r == (existing_tick != Some(snapshot_tick)),
{
    match existing_tick {
        Some(t) => t != snapshot_tick,
        None => true,
    }
}

/// One record, or none where there is more to record than it can hold.
pub fn encode_record(payload: &Vec<u8>) -> (r: Result<Vec<u8>, RecordTooLarge>)
    ensures
        match r {
            Ok(bytes) => payload@.len() <= u32::MAX && bytes@ == record_bytes(payload@),
            Err(_) => payload@.len() > u32::MAX,
        },
{
    if payload.len() > u32::MAX as usize {
        return Err(RecordTooLarge);
    }
    let mut out = u32_to_le_bytes(payload.len() as u32);
    push_bytes(&mut out, payload.as_slice());
    push_bytes(&mut out, u32_to_le_bytes(crc32(payload)).as_slice());
    Ok(out)
}

/// The tick of the snapshot that a journal goes with.
pub fn read_journal_snapshot_tick(bytes: &Vec<u8>) -> (r: Result<u64, JournalError>)
    ensures
        match r {
            Ok(t) => is_journal(bytes@) && t == long_at(bytes@, 12),
            Err(JournalError::Truncated) => bytes@.len() < 8 || (bytes@.take(8) == journal_mark()
                && (bytes@.len() < 12 || (word_at(bytes@, 8) == FORMAT_VERSION && bytes@.len()
                < 20))),
            Err(JournalError::MagicMismatch) => bytes@.len() >= 8 && bytes@.take(8)
                != journal_mark(),
            Err(JournalError::UnsupportedVersion(v)) => bytes@.len() >= 12 && bytes@.take(8)
                == journal_mark() && v == word_at(bytes@, 8) && v != FORMAT_VERSION,
        },
{
    if bytes.len() < MAGIC_LEN {
        return Err(JournalError::Truncated);
    }
    let mark = part(bytes, 0, MAGIC_LEN);
    assert(bytes@.subrange(0, 8) =~= bytes@.take(8));
    if !same_bytes(mark.as_slice(), journal_magic().as_slice()) {
        return Err(JournalError::MagicMismatch);
    }
    if bytes.len() < 12 {
        return Err(JournalError::Truncated);
    }
    let version = read_word(bytes, 8);
    if version != FORMAT_VERSION {
        return Err(JournalError::UnsupportedVersion(version));
    }
    if bytes.len() < JOURNAL_HEADER_LEN {
        return Err(JournalError::Truncated);
    }
    Ok(read_long(bytes, 12))
}

/// What a journal tells. The first record that is torn, short or does not
/// match its checksum ends it, and so does the end of the file; a file that is
/// missing or no journal tells nothing.
pub fn read_journal(bytes: Option<&Vec<u8>>) -> (r: (u64, Vec<Vec<u8>>))
    ensures
        match bytes {
            Some(b) => r.0 == journal_of(b@).0 && contents(r.1@) == journal_of(b@).1,
            None => r.0 == 0 && r.1@.len() == 0,
        },
{
    let mut out: Vec<Vec<u8>> = Vec::new();
    assert(contents(out@) =~= Seq::<Seq<u8>>::empty());
    let bytes = match bytes {
        Some(b) => b,
        None => {
            return (0, out);
        },
    };
    let tick: u64 = match read_journal_snapshot_tick(bytes) {
        Ok(t) => t,
        Err(_) => {
            return (0, out);
        },
    };
    let mut at: usize = JOURNAL_HEADER_LEN;
    while bytes.len() - at >= 4
        invariant
            JOURNAL_HEADER_LEN <= at <= bytes@.len(),
            contents(out@) + records_from(bytes@, at as int) == records_from(
                bytes@,
                JOURNAL_HEADER_LEN as int,
            ),
        ensures
            contents(out@) == records_from(bytes@, JOURNAL_HEADER_LEN as int),
        decreases bytes@.len() - at,
    {
        let len = read_word(bytes, at);
        assert(!record_at(bytes@, at as int) ==> contents(out@) + records_from(
            bytes@,
            at as int,
        ) =~= contents(out@));
        if len > MAX_RECORD_LEN {
            break;
        }
        if bytes.len() - at < 8 || bytes.len() - at - 8 < len as usize {
            break;
        }
        let end: usize = at + 4 + len as usize;
        let payload = part(bytes, at + 4, end);
        if read_word(bytes, end) != crc32(&payload) {
            break;
        }
        let ghost before = out@;
        out.push(payload);
        proof {
            assert(record_at(bytes@, at as int));
            assert(payload@ == payload_at(bytes@, at as int));
            assert(contents(out@) =~= contents(before).push(payload@));
            assert(contents(out@) + records_from(bytes@, end + 4) =~= contents(before) + (
            seq![payload@] + records_from(bytes@, end + 4)));
        }
        at = end + 4;
    }
    (tick, out)
}

/// A record written at some place is read there.
proof fn lemma_record_read(before: Seq<u8>, payload: Seq<u8>, after: Seq<u8>)
    requires
        payload.len() <= MAX_RECORD_LEN,
    ensures
        ({
            let all = before + record_bytes(payload) + after;
            let at = before.len() as int;
            &&& record_at(all, at)
            &&& payload_at(all, at) == payload
            &&& word_at(all, at) == payload.len()
        }),
{
    lemma_auto_spec_u32_to_from_le_bytes();
    let all = before + record_bytes(payload) + after;
    let at = before.len() as int;
    let len = payload.len() as u32;
    assert(spec_u32_to_le_bytes(len).len() == 4);
    assert(spec_u32_to_le_bytes(crc32_of(payload)).len() == 4);
    assert(all.subrange(at, at + 4) =~= spec_u32_to_le_bytes(len));
    assert(all.subrange(at + 4, at + 4 + len) =~= payload);
    assert(all.subrange(at + 4 + len, at + 4 + len + 4) =~= spec_u32_to_le_bytes(
        crc32_of(payload),
    ));
}

/// Records written one after the other are read, and then what comes after.
proof fn lemma_records_read(before: Seq<u8>, payloads: Seq<Seq<u8>>, after: Seq<u8>)
    requires
        forall|i: int| 0 <= i < payloads.len() ==> (#[trigger] payloads[i]).len() <= MAX_RECORD_LEN,
    ensures
        records_from(before + all_records(payloads) + after, before.len() as int) == payloads
            + records_from(
            before + all_records(payloads) + after,
            (before.len() + all_records(payloads).len()) as int,
        ),
    decreases payloads.len(),
{
    let all = before + all_records(payloads) + after;
    if payloads.len() == 0 {
        assert(payloads + records_from(all, before.len() as int) =~= records_from(
            all,
            before.len() as int,
        ));
    } else {
        lemma_auto_spec_u32_to_from_le_bytes();
        let p = payloads[0];
        let rest = payloads.drop_first();
        lemma_record_read(before, p, all_records(rest) + after);
        assert(before + record_bytes(p) + (all_records(rest) + after) =~= all);
        assert forall|i: int| 0 <= i < rest.len() implies (#[trigger] rest[i]).len()
            <= MAX_RECORD_LEN by {
            assert(rest[i] == payloads[i + 1]);
        }
        lemma_records_read(before + record_bytes(p), rest, after);
        assert(before + record_bytes(p) + all_records(rest) + after =~= all);
        assert(record_bytes(p).len() == p.len() + 8) by {
            assert(spec_u32_to_le_bytes(p.len() as u32).len() == 4);
            assert(spec_u32_to_le_bytes(crc32_of(p)).len() == 4);
        }
        assert((before + record_bytes(p)).len() == before.len() + 8 + p.len());
        let tail = records_from(all, (before.len() + all_records(payloads).len()) as int);
        assert(seq![p] + (rest + tail) =~= payloads + tail);
    }
}

/// What is read of a file that begins with a header.
proof fn lemma_header_read(tick: u64, rest: Seq<u8>)
    ensures
        is_journal(header_bytes(tick) + rest),
        long_at(header_bytes(tick) + rest, 12) == tick,
        header_bytes(tick).len() == JOURNAL_HEADER_LEN,
{
    lemma_auto_spec_u32_to_from_le_bytes();
    lemma_auto_spec_u64_to_from_le_bytes();
    let all = header_bytes(tick) + rest;
    assert(spec_u32_to_le_bytes(FORMAT_VERSION).len() == 4);
    assert(spec_u64_to_le_bytes(tick).len() == 8);
    assert(all.take(8) =~= journal_mark());
    assert(all.subrange(8, 12) =~= spec_u32_to_le_bytes(FORMAT_VERSION));
    assert(all.subrange(12, 20) =~= spec_u64_to_le_bytes(tick));
}

/// A journal tells what was written: the tick of its snapshot and every
/// record, in order.
pub proof fn law_journal_reads_back(tick: u64, payloads: Seq<Seq<u8>>)
    requires
        forall|i: int| 0 <= i < payloads.len() ==> (#[trigger] payloads[i]).len() <= MAX_RECORD_LEN,
    ensures
        journal_of(header_bytes(tick) + all_records(payloads)) == (tick, payloads),
{
    let head = header_bytes(tick);
    let none = Seq::<u8>::empty();
    lemma_header_read(tick, all_records(payloads));
    lemma_records_read(head, payloads, none);
    let all = head + all_records(payloads);
    assert(all + none =~= all);
    assert(records_from(all, all.len() as int) =~= Seq::<Seq<u8>>::empty());
    assert(payloads + Seq::<Seq<u8>>::empty() =~= payloads);
}

/// A record that was not written to its end is passed over, and all before it
/// are told.
pub proof fn law_torn_tail_is_skipped(tick: u64, payloads: Seq<Seq<u8>>, torn: Seq<u8>, cut: int)
    requires
        forall|i: int| 0 <= i < payloads.len() ==> (#[trigger] payloads[i]).len() <= MAX_RECORD_LEN,
        torn.len() <= u32::MAX,
        0 <= cut < record_bytes(torn).len(),
    ensures
        journal_of(header_bytes(tick) + all_records(payloads) + record_bytes(torn).take(cut)) == (
            tick,
            payloads,
        ),
{
    lemma_auto_spec_u32_to_from_le_bytes();
    let head = header_bytes(tick);
    let tail = record_bytes(torn).take(cut);
    let all = head + all_records(payloads) + tail;
    lemma_header_read(tick, all_records(payloads) + tail);
    assert(head + (all_records(payloads) + tail) =~= all);
    lemma_records_read(head, payloads, tail);
    let at = (head.len() + all_records(payloads).len()) as int;
    assert(!record_at(all, at)) by {
        if at + 4 <= all.len() {
            let len = torn.len() as u32;
            assert(spec_u32_to_le_bytes(len).len() == 4);
            assert(spec_u32_to_le_bytes(crc32_of(torn)).len() == 4);
            assert(all.subrange(at, at + 4) =~= spec_u32_to_le_bytes(len));
        }
    }
    assert(records_from(all, at) =~= Seq::<Seq<u8>>::empty());
    assert(payloads + Seq::<Seq<u8>>::empty() =~= payloads);
}

/// A record that does not match its checksum ends the journal, whatever comes
/// after it, and all before it are told.
pub proof fn law_bad_checksum_ends_the_journal(
    tick: u64,
    payloads: Seq<Seq<u8>>,
    bad: Seq<u8>,
    sum: u32,
    after: Seq<u8>,
)
    requires
        forall|i: int| 0 <= i < payloads.len() ==> (#[trigger] payloads[i]).len() <= MAX_RECORD_LEN,
        bad.len() <= u32::MAX,
        sum != crc32_of(bad),
    ensures
        journal_of(
            header_bytes(tick) + all_records(payloads) + (spec_u32_to_le_bytes(bad.len() as u32)
                + bad + spec_u32_to_le_bytes(sum) + after),
        ) == (tick, payloads),
{
    lemma_auto_spec_u32_to_from_le_bytes();
    let head = header_bytes(tick);
    let len = bad.len() as u32;
    let tail = spec_u32_to_le_bytes(len) + bad + spec_u32_to_le_bytes(sum) + after;
    let all = head + all_records(payloads) + tail;
    lemma_header_read(tick, all_records(payloads) + tail);
    assert(head + (all_records(payloads) + tail) =~= all);
    lemma_records_read(head, payloads, tail);
    let at = (head.len() + all_records(payloads).len()) as int;
    assert(spec_u32_to_le_bytes(len).len() == 4);
    assert(spec_u32_to_le_bytes(sum).len() == 4);
    assert(all.subrange(at, at + 4) =~= spec_u32_to_le_bytes(len));
    assert(all.subrange(at + 4, at + 4 + len) =~= bad);
    assert(all.subrange(at + 4 + len, at + 4 + len + 4) =~= spec_u32_to_le_bytes(sum));
    assert(!record_at(all, at));
    assert(records_from(all, at) =~= Seq::<Seq<u8>>::empty());
    assert(payloads + Seq::<Seq<u8>>::empty() =~= payloads);
}

/// A journal that goes with another snapshot is begun anew, so that it is
/// never replayed on top of this one.
pub proof fn law_stale_journal_is_dropped(tick: u64, rest: Seq<u8>, snapshot_tick: u64)
    ensures
        ({
            let told = long_at(header_bytes(tick) + rest, 12);
            (Some(told) != Some(snapshot_tick)) <==> tick != snapshot_tick
        }),
{
    lemma_header_read(tick, rest);
}

/// What the journal's writer is asked for.
#[derive(Clone, Copy, Debug, PartialEq, Eq, Structural)]
pub enum WriterRequest {
    /// To write a record of so many bytes.
    Append { len: usize },
    /// To begin the journal anew, for the snapshot of a tick.
    Rotate { snapshot_tick: u64 },
    /// To bring everything to disk.
    FlushAndSync,
    /// Nothing, for a while.
    Quiet,
    /// To stop.
    Close,
}

/// What the journal's writer is to do.
#[derive(Debug)]
pub enum WriterTask {
    /// To write the record.
    Write,
    /// To bring everything to disk, empty the file and write a header to it.
    BeginAnew { header: Vec<u8> },
    /// To bring everything to disk, and answer.
    Sync,
    /// To bring what was written to disk; nobody waits for it.
    Tidy,
    /// To wait for the next request.
    Wait,
    /// To bring everything to disk, and stop.
    Finish,
}

/// What is written but not yet brought to disk.
#[derive(Clone, Copy, Debug, PartialEq, Eq, Structural)]
pub struct PendingWrites {
    pub bytes: usize,
}

impl PendingWrites {
    /// Nothing is pending.
    pub fn new() -> (r: Self)
        ensures
            r.bytes == 0,
    {
        PendingWrites { bytes: 0 }
    }

    /// The task that answers a request.
    pub open spec fn answers(self, request: WriterRequest, task: WriterTask) -> bool {
        match request {
            WriterRequest::Append { .. } => task is Write,
            WriterRequest::Rotate { snapshot_tick } => task matches WriterTask::BeginAnew { header }
                && header@ == header_bytes(snapshot_tick),
            WriterRequest::FlushAndSync => task is Sync,
            WriterRequest::Quiet => if self.bytes > 0 {
                task is Tidy
            } else {
                task is Wait
            },
            WriterRequest::Close => task is Finish,
        }
    }

    /// What to do for a request.
    pub fn task_for(&self, request: WriterRequest) -> (r: WriterTask)
        ensures
            self.answers(request, r),
    {
        match request {
            WriterRequest::Append { .. } => WriterTask::Write,
            WriterRequest::Rotate { snapshot_tick } => WriterTask::BeginAnew {
                header: journal_header(snapshot_tick),
            },
            WriterRequest::FlushAndSync => WriterTask::Sync,
            WriterRequest::Quiet => if self.bytes > 0 {
                WriterTask::Tidy
            } else {
                WriterTask::Wait
            },
            WriterRequest::Close => WriterTask::Finish,
        }
    }

    /// What is pending after a request was dealt with. A record counts once it
    /// is written, and calls for a sync once one is due; the sync that somebody
    /// waits for counts only if it worked, the others in any case.
    pub open spec fn after(self, request: WriterRequest, worked: bool, due: bool) -> int {
        match request {
            WriterRequest::Append { len } => if !worked {
                self.bytes as int
            } else if self.bytes + len > 0 && due {
                0
            } else {
                self.bytes + len
            },
            WriterRequest::Rotate { .. } | WriterRequest::FlushAndSync => if worked {
                0
            } else {
                self.bytes as int
            },
            WriterRequest::Quiet | WriterRequest::Close => 0,
        }
    }

    /// Notes how a request went, and says whether the time of the last sync
    /// has to be set anew. After a record that is to bring what was written to
    /// disk, too. `due` says whether the last sync is long enough ago.
    pub fn settle(&mut self, request: WriterRequest, worked: bool, due: bool) -> (r: bool)
        requires
            request matches WriterRequest::Append { len } ==> old(self).bytes + len <= usize::MAX,
        ensures
            final(self).bytes == old(self).after(request, worked, due),
            r == (match request {
                WriterRequest::Append { len } => worked && old(self).bytes + len > 0 && due,
                WriterRequest::Rotate { .. } | WriterRequest::FlushAndSync => worked,
                WriterRequest::Quiet => old(self).bytes > 0,
                WriterRequest::Close => true,
            }),
    {
        match request {
            WriterRequest::Append { len } => {
                if !worked {
                    return false;
                }
                let all: usize = self.bytes + len;
                if all > 0 && due {
                    self.bytes = 0;
                    true
                } else {
                    self.bytes = all;
                    false
                }
            },
            WriterRequest::Rotate { .. } | WriterRequest::FlushAndSync => {
                if worked {
                    self.bytes = 0;
                }
                worked
            },
            WriterRequest::Quiet => {
                let some = self.bytes > 0;
                self.bytes = 0;
                some
            },
            WriterRequest::Close => {
                self.bytes = 0;
                true
            },
        }
    }
}

/// What is written stays pending for no more than one quiet while, or one
/// record after a sync is due.
pub proof fn law_nothing_stays_pending(p: PendingWrites, len: usize, worked: bool, due: bool)
    ensures
        p.after(WriterRequest::Quiet, worked, due) == 0,
        p.after(WriterRequest::Append { len }, true, true) == 0,
{
}

/// A sync that somebody waits for and that failed is not taken for one that
/// worked.
pub proof fn law_failed_sync_keeps_pending(p: PendingWrites, snapshot_tick: u64, due: bool)
    ensures
        p.after(WriterRequest::FlushAndSync, false, due) == p.bytes,
        p.after(WriterRequest::Rotate { snapshot_tick }, false, due) == p.bytes,
{
}

/// Where everything stands in a journal: eight letters, the version in four
/// bytes and the tick in eight; then for each record its length in four bytes,
/// the record, and its checksum in four. Numbers begin with their least byte.
pub proof fn law_journal_layout(tick: u64, payload: Seq<u8>, rest: Seq<Seq<u8>>)
    requires
        payload.len() <= MAX_RECORD_LEN,
    ensures
        ({
            let head = header_bytes(tick);
            let rec = record_bytes(payload);
            let n = payload.len() as int;
            &&& head.len() == 20
            &&& head[0] == 'N' as u8 && head[1] == 'S' as u8 && head[2] == 'P' as u8 && head[3]
                == 'H' as u8 && head[4] == 'J' as u8 && head[5] == 'R' as u8 && head[6] == 'N' as u8
                && head[7] == 'L' as u8
            &&& head.subrange(8, 12) == spec_u32_to_le_bytes(FORMAT_VERSION)
            &&& head.subrange(12, 20) == spec_u64_to_le_bytes(tick)
            &&& rec.len() == n + 8
            &&& rec.take(4) == spec_u32_to_le_bytes(n as u32)
            &&& rec.subrange(4, 4 + n) == payload
            &&& rec.skip(4 + n) == spec_u32_to_le_bytes(crc32_of(payload))
            &&& all_records(seq![payload] + rest) == rec + all_records(rest)
            &&& all_records(Seq::empty()).len() == 0
        }),
{
    lemma_auto_spec_u32_to_from_le_bytes();
    lemma_auto_spec_u64_to_from_le_bytes();
    let head = header_bytes(tick);
    let rec = record_bytes(payload);
    let n = payload.len() as int;
    assert(spec_u32_to_le_bytes(FORMAT_VERSION).len() == 4);
    assert(spec_u64_to_le_bytes(tick).len() == 8);
    assert(spec_u32_to_le_bytes(n as u32).len() == 4);
    assert(spec_u32_to_le_bytes(crc32_of(payload)).len() == 4);
    assert(head.subrange(8, 12) =~= spec_u32_to_le_bytes(FORMAT_VERSION));
    assert(head.subrange(12, 20) =~= spec_u64_to_le_bytes(tick));
    assert(rec.take(4) =~= spec_u32_to_le_bytes(n as u32));
    assert(rec.subrange(4, 4 + n) =~= payload);
    assert(rec.skip(4 + n) =~= spec_u32_to_le_bytes(crc32_of(payload)));
    assert((seq![payload] + rest).drop_first() =~= rest);
}

/// No record is longer than sixteen mebibytes, whatever its length says.
pub proof fn law_long_records_are_refused(bytes: Seq<u8>, from: int)
    requires
        word_at(bytes, from) > 16 * 1024 * 1024,
    ensures
        !record_at(bytes, from),
        records_from(bytes, from).len() == 0,
{
}

/// Each request is answered by its own task: a record is written, a rotation
/// begins the journal for its snapshot, whoever waits gets a sync, a quiet
/// spell is for tidying up where anything is pending, and a close finishes.
pub proof fn law_requests_are_answered(p: PendingWrites, request: WriterRequest, task: WriterTask)
    requires
        p.answers(request, task),
    ensures
        request is Append <==> task is Write,
        request is FlushAndSync <==> task is Sync,
        request is Close <==> task is Finish,
        request is Quiet && p.bytes > 0 <==> task is Tidy,
        request is Quiet && p.bytes == 0 <==> task is Wait,
        request matches WriterRequest::Rotate { snapshot_tick } ==> (
        task matches WriterTask::BeginAnew { header } && header@ == header_bytes(snapshot_tick)),
{
}

/// What is written is pending until a sync: a record that was written adds its
/// length, one that was not adds nothing, and a sync that is due or that worked
/// leaves nothing.
pub proof fn law_writes_are_pending_until_synced(p: PendingWrites, len: usize, tick: u64, due: bool)
    ensures
        p.after(WriterRequest::Append { len }, false, due) == p.bytes,
        p.after(WriterRequest::Append { len }, true, false) == p.bytes + len,
        p.after(WriterRequest::Append { len }, true, true) == 0,
        p.after(WriterRequest::FlushAndSync, true, due) == 0,
        p.after(WriterRequest::FlushAndSync, false, due) == p.bytes,
        p.after(WriterRequest::Rotate { snapshot_tick: tick }, true, due) == 0,
        p.after(WriterRequest::Rotate { snapshot_tick: tick }, false, due) == p.bytes,
        p.after(WriterRequest::Quiet, false, due) == 0,
        p.after(WriterRequest::Close, false, due) == 0,
{
}

/// A file that is too short, begins with other letters or is of another version
/// is no journal, and tells nothing of any tick.
pub proof fn law_no_journal_tells_nothing(bytes: Seq<u8>)
    requires
        bytes.len() < 20 || bytes.take(8) != journal_mark() || word_at(bytes, 8) != FORMAT_VERSION,
    ensures
        journal_of(bytes).0 == 0,
        journal_of(bytes).1.len() == 0,
{
}

} // verus!
