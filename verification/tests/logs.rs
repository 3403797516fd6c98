use mooncake_table::codec::{decode_log, record_frame, DecodeError, WalRecord};
use mooncake_table::position::PositionDelete;
use mooncake_table::row::{test_row, MoonlinkRow, RowValue};
use mooncake_table::wal::{Wal, WalError};

fn commit_frame() -> Vec<u8> {
    vec![
        0x09, 0x00, 0x00, 0x00, 0x02, 0x01, 0x00, 0x00, 0x00, 0x00, 0x00, 0x00, 0x00, 0x04, 0x00,
        0x23, 0x00,
    ]
}

fn append_frame() -> Vec<u8> {
    vec![
        0x16, 0x00, 0x00, 0x00, 0x00, 0x03, 0x00, 0x00, 0x00, 0x01, 0x07, 0x00, 0x00, 0x00, 0x04,
        0x02, 0x00, 0x00, 0x00, 0x61, 0x62, 0x01, 0x25, 0x00, 0x00, 0x00, 0xFB, 0x00, 0xA8, 0x06,
    ]
}

fn same_record(a: &WalRecord, b: &WalRecord) -> bool {
    match (a, b) {
        (WalRecord::Append(x), WalRecord::Append(y)) => x.same(y),
        (WalRecord::Delete(x), WalRecord::Delete(y)) => x == y,
        (WalRecord::Commit(x), WalRecord::Commit(y)) => x == y,
        _ => false,
    }
}

fn same_records(a: &[WalRecord], b: &[WalRecord]) -> bool {
    a.len() == b.len() && a.iter().zip(b).all(|(x, y)| same_record(x, y))
}

fn sample_records() -> Vec<WalRecord> {
    vec![
        WalRecord::Append(test_row(7, "ab", 37)),
        WalRecord::Append(MoonlinkRow::new(vec![
            RowValue::Int32(-2),
            RowValue::Int64(-3),
            RowValue::Bool(true),
            RowValue::ByteArray(vec![]),
            RowValue::Null,
        ])),
        WalRecord::Commit(1),
        WalRecord::Delete(PositionDelete::new(2, 0)),
        WalRecord::Append(MoonlinkRow::new(vec![])),
        WalRecord::Commit(u64::MAX),
    ]
}

#[test]
fn frames_have_the_documented_layout() {
    assert_eq!(record_frame(&WalRecord::Commit(1)), Some(commit_frame()));
    assert_eq!(record_frame(&WalRecord::Append(test_row(7, "ab", 37))), Some(append_frame()));
    assert_eq!(
        record_frame(&WalRecord::Delete(PositionDelete::new(2, 0))),
        Some(vec![
            0x09, 0x00, 0x00, 0x00, 0x01, 0x02, 0x00, 0x00, 0x00, 0x00, 0x00, 0x00, 0x00, 0x04,
            0x00, 0x22, 0x00
        ])
    );
    assert_eq!(
        record_frame(&sample_records()[1]),
        Some(vec![
            0x1B, 0x00, 0x00, 0x00, 0x00, 0x05, 0x00, 0x00, 0x00, 0x01, 0xFE, 0xFF, 0xFF, 0xFF,
            0x02, 0xFD, 0xFF, 0xFF, 0xFF, 0xFF, 0xFF, 0xFF, 0xFF, 0x03, 0x01, 0x04, 0x00, 0x00,
            0x00, 0x00, 0x00, 0x02, 0x0C, 0x25, 0xB2
        ])
    );
}

#[test]
fn log_bytes_read_back() {
    let mut bytes: Vec<u8> = Vec::new();
    for record in sample_records() {
        bytes.extend(record_frame(&record).unwrap());
    }
    let read = decode_log(&bytes).unwrap();
    assert!(same_records(&read, &sample_records()));
    assert!(decode_log(&[]).unwrap().is_empty());
}

#[test]
fn extreme_integers_read_back() {
    let row = MoonlinkRow::new(vec![
        RowValue::Int32(i32::MIN),
        RowValue::Int32(i32::MAX),
        RowValue::Int32(-1),
        RowValue::Int64(i64::MIN),
        RowValue::Int64(i64::MAX),
        RowValue::Int64(-1),
        RowValue::Bool(false),
        RowValue::ByteArray(vec![0, 255, 4, 1]),
    ]);
    let bytes = record_frame(&WalRecord::Append(row.clone())).unwrap();
    let read = decode_log(&bytes).unwrap();
    assert!(same_records(&read, &[WalRecord::Append(row)]));
}

#[test]
fn torn_final_frame_is_left_out() {
    let mut whole: Vec<u8> = Vec::new();
    whole.extend(append_frame());
    whole.extend(commit_frame());
    let expected = vec![WalRecord::Append(test_row(7, "ab", 37)), WalRecord::Commit(1)];
    let torn = record_frame(&WalRecord::Append(test_row(8, "cd", 38))).unwrap();
    for k in 0..torn.len() {
        let mut bytes = whole.clone();
        bytes.extend(&torn[..k]);
        assert!(same_records(&decode_log(&bytes).unwrap(), &expected));
    }
    let mut bytes = whole.clone();
    bytes.extend(&torn);
    assert_eq!(decode_log(&bytes).unwrap().len(), 3);
}

#[test]
fn damaged_whole_frame_is_a_fault() {
    let mut bytes = append_frame();
    bytes.extend(commit_frame());
    let mut flipped = bytes.clone();
    flipped[10] ^= 0x40;
    assert_eq!(decode_log(&flipped).unwrap_err(), DecodeError::ChecksumMismatch);
    let mut wrong_sum = bytes.clone();
    wrong_sum[29] ^= 0x01;
    assert_eq!(decode_log(&wrong_sum).unwrap_err(), DecodeError::ChecksumMismatch);
    let unknown_kind = vec![0x01, 0x00, 0x00, 0x00, 0x09, 0x0A, 0x00, 0x0A, 0x00];
    assert_eq!(decode_log(&unknown_kind).unwrap_err(), DecodeError::BadPayload);
    let empty_payload = vec![0x00, 0x00, 0x00, 0x00, 0x01, 0x00, 0x00, 0x00];
    assert_eq!(decode_log(&empty_payload).unwrap_err(), DecodeError::BadPayload);
}

#[test]
fn log_keeps_records_and_bytes() {
    let mut wal = Wal::new(1000);
    assert_eq!(wal.len(), 0);
    assert_eq!(wal.last_lsn(), None);
    assert_eq!(wal.append(WalRecord::Append(test_row(7, "ab", 37))), Ok(()));
    assert_eq!(wal.commit_marker(1), Ok(()));
    assert_eq!(wal.len(), 2);
    assert_eq!(wal.last_lsn(), Some(1));
    let mut expected = append_frame();
    expected.extend(commit_frame());
    assert_eq!(wal.bytes(), &expected);
    assert!(same_records(
        &wal.records(),
        &[WalRecord::Append(test_row(7, "ab", 37)), WalRecord::Commit(1)]
    ));
}

#[test]
fn commit_lsn_must_increase() {
    let mut wal = Wal::new(1000);
    assert_eq!(wal.commit_marker(5), Ok(()));
    assert_eq!(wal.commit_marker(5), Err(WalError::LsnOutOfOrder));
    assert_eq!(wal.commit_marker(4), Err(WalError::LsnOutOfOrder));
    assert_eq!(wal.append(WalRecord::Commit(0)), Err(WalError::LsnOutOfOrder));
    assert_eq!(wal.len(), 1);
    assert_eq!(wal.last_lsn(), Some(5));
    assert_eq!(wal.commit_marker(6), Ok(()));
    assert_eq!(wal.last_lsn(), Some(6));
}

#[test]
fn full_log_refuses_and_stays() {
    let mut wal = Wal::new(40);
    assert_eq!(wal.append(WalRecord::Append(test_row(7, "ab", 37))), Ok(()));
    assert_eq!(wal.bytes().len(), 30);
    assert_eq!(wal.append(WalRecord::Append(test_row(8, "cd", 38))), Err(WalError::Full));
    assert_eq!(wal.commit_marker(1), Err(WalError::Full));
    assert_eq!(wal.bytes(), &append_frame());
    assert_eq!(wal.len(), 1);
    assert_eq!(wal.last_lsn(), None);
    let mut exact = Wal::new(47);
    assert_eq!(exact.append(WalRecord::Append(test_row(7, "ab", 37))), Ok(()));
    assert_eq!(exact.commit_marker(1), Ok(()));
    assert_eq!(exact.bytes().len(), 47);
}

#[test]
fn replay_starts_behind_the_commit() {
    let mut wal = Wal::new(10_000);
    for record in [
        WalRecord::Append(test_row(1, "a", 1)),
        WalRecord::Commit(10),
        WalRecord::Append(test_row(2, "b", 2)),
        WalRecord::Delete(PositionDelete::new(0, 0)),
        WalRecord::Commit(20),
        WalRecord::Append(test_row(3, "c", 3)),
    ] {
        assert_eq!(wal.append(record), Ok(()));
    }
    assert_eq!(wal.replay(9).len(), 6);
    assert!(same_records(
        &wal.replay(10),
        &[
            WalRecord::Append(test_row(2, "b", 2)),
            WalRecord::Delete(PositionDelete::new(0, 0)),
            WalRecord::Commit(20),
            WalRecord::Append(test_row(3, "c", 3)),
        ]
    ));
    assert_eq!(wal.replay(19).len(), 4);
    assert!(same_records(&wal.replay(20), &[WalRecord::Append(test_row(3, "c", 3))]));
    assert_eq!(wal.replay(u64::MAX).len(), 1);
}

#[test]
fn truncate_drops_what_replay_skips() {
    let mut wal = Wal::new(10_000);
    for record in [
        WalRecord::Append(test_row(1, "a", 1)),
        WalRecord::Commit(10),
        WalRecord::Append(test_row(2, "b", 2)),
        WalRecord::Commit(20),
    ] {
        assert_eq!(wal.append(record), Ok(()));
    }
    wal.truncate(5);
    assert_eq!(wal.len(), 4);
    wal.truncate(15);
    assert_eq!(wal.len(), 2);
    assert_eq!(wal.last_lsn(), Some(20));
    let mut expected = record_frame(&WalRecord::Append(test_row(2, "b", 2))).unwrap();
    expected.extend(record_frame(&WalRecord::Commit(20)).unwrap());
    assert_eq!(wal.bytes(), &expected);
    wal.truncate(20);
    assert_eq!(wal.len(), 0);
    assert!(wal.bytes().is_empty());
    assert_eq!(wal.last_lsn(), Some(20));
    assert_eq!(wal.commit_marker(20), Err(WalError::LsnOutOfOrder));
    assert_eq!(wal.commit_marker(21), Ok(()));
}

#[test]
fn log_recovers_from_its_image() {
    let mut wal = Wal::new(10_000);
    for record in sample_records() {
        assert_eq!(wal.append(record), Ok(()));
    }
    let mut image = wal.bytes().clone();
    image.extend(&append_frame()[..11]);
    let recovered = Wal::recover(10_000, None, &image).unwrap();
    assert!(same_records(&recovered.records(), &sample_records()));
    assert_eq!(recovered.last_lsn(), Some(u64::MAX));
    assert_eq!(recovered.bytes(), wal.bytes());
    let empty = Wal::recover(10, Some(4), &[]).unwrap();
    assert_eq!(empty.len(), 0);
    assert_eq!(empty.last_lsn(), Some(4));
}

#[test]
fn log_does_not_recover_from_what_is_no_log() {
    let mut bytes = commit_frame();
    bytes.extend(commit_frame());
    assert_eq!(Wal::recover(1000, None, &bytes).unwrap_err(), WalError::Corrupt);
    assert_eq!(Wal::recover(1000, Some(1), &commit_frame()).unwrap_err(), WalError::Corrupt);
    assert!(Wal::recover(1000, Some(0), &commit_frame()).is_ok());
    assert_eq!(Wal::recover(16, None, &commit_frame()).unwrap_err(), WalError::Corrupt);
    assert!(Wal::recover(17, None, &commit_frame()).is_ok());
    let mut flipped = commit_frame();
    flipped[5] = 0x02;
    assert_eq!(Wal::recover(1000, None, &flipped).unwrap_err(), WalError::Corrupt);
}
