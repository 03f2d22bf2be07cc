use simn_sim::persistence::format::{journal_magic, snapshot_magic, FORMAT_VERSION};
use simn_sim::persistence::journal::{
    encode_record, journal_header, needs_header, read_journal, read_journal_snapshot_tick,
    JournalError, PendingWrites, WriterRequest, WriterTask,
};
use simn_sim::persistence::snapshot::{
    read_snapshot, write_snapshot_to_vec, SnapshotError, SnapshotField,
};

fn journal(tick: u64, payloads: &[&[u8]]) -> Vec<u8> {
    let mut all = journal_header(tick);
    for p in payloads {
        all.extend(encode_record(&p.to_vec()).unwrap());
    }
    all
}

#[test]
fn journals_read_back() {
    let all = journal(77, &[b"one", b"", b"three"]);
    let (tick, got) = read_journal(Some(&all));
    assert_eq!(tick, 77);
    assert_eq!(got, vec![b"one".to_vec(), b"".to_vec(), b"three".to_vec()]);
    assert_eq!(read_journal_snapshot_tick(&all), Ok(77));
    assert_eq!(read_journal(None), (0, vec![]));
}

#[test]
fn journals_have_their_layout() {
    let head = journal_header(0x0102);
    assert_eq!(&head[..8], b"NSPHJRNL");
    assert_eq!(&head[8..12], &FORMAT_VERSION.to_le_bytes());
    assert_eq!(&head[12..], &[2, 1, 0, 0, 0, 0, 0, 0]);
    let rec = encode_record(&b"123456789".to_vec()).unwrap();
    assert_eq!(&rec[..4], &[9, 0, 0, 0]);
    assert_eq!(&rec[4..13], b"123456789");
    assert_eq!(&rec[13..], &0xCBF4_3926u32.to_le_bytes());
}

#[test]
fn torn_tails_are_skipped() {
    let whole = journal(5, &[b"kept", b"torn"]);
    let kept = journal(5, &[b"kept"]);
    for cut in kept.len()..whole.len() {
        let (tick, got) = read_journal(Some(&whole[..cut].to_vec()));
        assert_eq!(tick, 5);
        assert_eq!(got, vec![b"kept".to_vec()]);
    }
}

#[test]
fn bad_records_end_the_journal() {
    let mut all = journal(5, &[b"good", b"evil", b"lost"]);
    let at = journal(5, &[b"good"]).len() + 4;
    all[at] ^= 1;
    assert_eq!(read_journal(Some(&all)).1, vec![b"good".to_vec()]);
    let mut huge = journal(5, &[b"good"]);
    huge.extend((16 * 1024 * 1024 + 1u32).to_le_bytes());
    huge.extend([0u8; 64]);
    assert_eq!(read_journal(Some(&huge)).1, vec![b"good".to_vec()]);
}

#[test]
fn bad_headers_are_refused() {
    let good = journal(5, &[b"x"]);
    let mut bad = good.clone();
    bad[0] ^= 1;
    assert_eq!(read_journal_snapshot_tick(&bad), Err(JournalError::MagicMismatch));
    assert_eq!(read_journal(Some(&bad)), (0, vec![]));
    let mut old = good.clone();
    old[8] = 24;
    assert_eq!(read_journal_snapshot_tick(&old), Err(JournalError::UnsupportedVersion(24)));
    for cut in [0, 7, 11, 19] {
        let short = good[..cut].to_vec();
        assert_eq!(read_journal_snapshot_tick(&short), Err(JournalError::Truncated));
        assert_eq!(read_journal(Some(&short)), (0, vec![]));
    }
    assert!(needs_header(None, 5) && needs_header(Some(4), 5) && !needs_header(Some(5), 5));
}

#[test]
fn pending_writes_are_brought_to_disk() {
    let mut p = PendingWrites::new();
    let append = |len: usize| WriterRequest::Append { len };
    assert!(!p.settle(append(10), true, false));
    assert!(p.settle(append(5), true, true));
    assert_eq!(p.bytes, 0);
    assert!(matches!(p.task_for(WriterRequest::Quiet), WriterTask::Wait));
    assert!(!p.settle(WriterRequest::Quiet, true, true));
    assert!(!p.settle(append(3), true, false));
    assert!(!p.settle(append(9), false, true));
    assert_eq!(p.bytes, 3);
    assert!(matches!(p.task_for(WriterRequest::Quiet), WriterTask::Tidy));
    assert!(p.settle(WriterRequest::Quiet, true, false));
    assert!(!p.settle(append(0), true, true));
}

#[test]
fn failed_syncs_leave_writes_pending() {
    let mut p = PendingWrites { bytes: 8 };
    let rotate = WriterRequest::Rotate { snapshot_tick: 6 };
    assert!(matches!(p.task_for(WriterRequest::FlushAndSync), WriterTask::Sync));
    assert!(!p.settle(WriterRequest::FlushAndSync, false, true));
    assert!(!p.settle(rotate, false, true));
    assert_eq!(p.bytes, 8);
    match p.task_for(rotate) {
        WriterTask::BeginAnew { header } => assert_eq!(header, journal_header(6)),
        other => panic!("{other:?}"),
    }
    assert!(p.settle(rotate, true, false));
    assert_eq!(p.bytes, 0);
    assert!(matches!(p.task_for(append_one()), WriterTask::Write));
    assert!(matches!(p.task_for(WriterRequest::Close), WriterTask::Finish));
}

fn append_one() -> WriterRequest {
    WriterRequest::Append { len: 1 }
}

#[test]
fn snapshots_read_back() {
    let body = b"the world".to_vec();
    let mut all = write_snapshot_to_vec(99, &body).unwrap();
    let f = read_snapshot(&all).unwrap();
    assert_eq!((f.tick, f.body, f.trailing), (99, body.clone(), 0));
    all.extend([1, 2, 3]);
    let f = read_snapshot(&all).unwrap();
    assert_eq!((f.tick, f.body, f.trailing), (99, body, 3));
}

#[test]
fn snapshots_have_their_layout() {
    let all = write_snapshot_to_vec(1, &vec![]).unwrap();
    assert_eq!(&all[..8], b"SIMNSAVE");
    assert_eq!(all.len(), 24 + 32);
    assert_eq!(&all[20..24], &[0, 0, 0, 0]);
    assert_eq!(&all[24..28], &[0xaf, 0x13, 0x49, 0xb9]);
    assert_ne!(snapshot_magic(), journal_magic());
}

#[test]
fn cut_snapshots_are_refused() {
    let all = write_snapshot_to_vec(9, &b"body".to_vec()).unwrap();
    let at = |cut: usize| read_snapshot(&all[..cut].to_vec()).unwrap_err();
    assert_eq!(at(3), SnapshotError::Truncated(SnapshotField::Magic));
    assert_eq!(at(9), SnapshotError::Truncated(SnapshotField::Version));
    assert_eq!(at(15), SnapshotError::Truncated(SnapshotField::Tick));
    assert_eq!(at(23), SnapshotError::Truncated(SnapshotField::BodyLen));
    assert_eq!(at(27), SnapshotError::Truncated(SnapshotField::Body));
    assert_eq!(at(59), SnapshotError::Truncated(SnapshotField::Hash));
    let mut bad = all.clone();
    bad[0] = 0;
    assert_eq!(read_snapshot(&bad).unwrap_err(), SnapshotError::MagicMismatch);
    let mut bad = all.clone();
    bad[8] = 26;
    assert_eq!(read_snapshot(&bad).unwrap_err(), SnapshotError::UnsupportedVersion(26));
    let mut bad = all.clone();
    bad[25] ^= 1;
    assert_eq!(read_snapshot(&bad).unwrap_err(), SnapshotError::HashMismatch);
}
