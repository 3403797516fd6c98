use mooncake_table::checksum::checksum;
use mooncake_table::deletion_vector::{BlobError, DeletionVector, MarkOutcome};

const TWO_OF_TEN: [u8; 24] = [
    0xD1, 0xD3, 0x39, 0x64, 0x0A, 0x00, 0x00, 0x00, 0x02, 0x00, 0x00, 0x00, 0x02, 0x00, 0x00, 0x00,
    0x05, 0x00, 0x00, 0x00, 0x55, 0x02, 0x93, 0x2B,
];

#[test]
fn new_vector_is_empty() {
    let dv = DeletionVector::new(8);
    assert_eq!(dv.max_rows(), 8);
    assert_eq!(dv.len(), 0);
    assert!(dv.is_empty());
    assert_eq!(dv.collect_deleted_rows(), Vec::<u32>::new());
    assert!(!dv.is_deleted(0));
}

#[test]
fn marked_offsets_come_out_sorted() {
    let mut dv = DeletionVector::new(100);
    for offset in [42, 7, 99, 0, 13] {
        assert_eq!(dv.mark_deleted(offset), MarkOutcome::Marked);
    }
    assert_eq!(dv.collect_deleted_rows(), vec![0, 7, 13, 42, 99]);
    assert_eq!(dv.len(), 5);
    for offset in [0, 7, 13, 42, 99] {
        assert!(dv.is_deleted(offset));
    }
    for offset in [1, 6, 8, 41, 43, 98, 100, 1000] {
        assert!(!dv.is_deleted(offset));
    }
}

#[test]
fn marking_twice_is_marking_once() {
    let mut once = DeletionVector::new(10);
    once.mark_deleted(3);
    once.mark_deleted(6);
    let mut twice = DeletionVector::new(10);
    assert_eq!(twice.mark_deleted(3), MarkOutcome::Marked);
    assert_eq!(twice.mark_deleted(6), MarkOutcome::Marked);
    assert_eq!(twice.mark_deleted(3), MarkOutcome::DuplicateDelete);
    assert_eq!(twice.mark_deleted(6), MarkOutcome::DuplicateDelete);
    assert_eq!(twice.collect_deleted_rows(), once.collect_deleted_rows());
    assert_eq!(twice.collect_deleted_rows(), vec![3, 6]);
    assert_eq!(twice.serialize(), once.serialize());
}

#[test]
fn marking_out_of_range_changes_nothing() {
    let mut dv = DeletionVector::new(4);
    assert_eq!(dv.mark_deleted(4), MarkOutcome::DeletionOutOfRange);
    assert_eq!(dv.mark_deleted(u32::MAX), MarkOutcome::DeletionOutOfRange);
    assert!(dv.is_empty());
    assert_eq!(dv.mark_deleted(3), MarkOutcome::Marked);
    assert_eq!(dv.collect_deleted_rows(), vec![3]);
    let mut none = DeletionVector::new(0);
    assert_eq!(none.mark_deleted(0), MarkOutcome::DeletionOutOfRange);
}

#[test]
fn checksum_is_adler32() {
    assert_eq!(checksum(b""), 1);
    assert_eq!(checksum(b"Wikipedia"), 0x11E6_0398);
    assert_eq!(checksum(&TWO_OF_TEN[..20]), 0x2B93_0255);
}

#[test]
fn blob_has_the_documented_layout() {
    let mut dv = DeletionVector::new(10);
    dv.mark_deleted(5);
    dv.mark_deleted(2);
    assert_eq!(dv.serialize(), TWO_OF_TEN.to_vec());
    assert_eq!(
        DeletionVector::new(4).serialize(),
        vec![
            0xD1, 0xD3, 0x39, 0x64, 0x04, 0x00, 0x00, 0x00, 0x00, 0x00, 0x00, 0x00, 0x46, 0x02,
            0xC7, 0x18
        ]
    );
}

#[test]
fn blob_reads_back() {
    let dv = DeletionVector::deserialize(&TWO_OF_TEN).unwrap();
    assert_eq!(dv.max_rows(), 10);
    assert_eq!(dv.collect_deleted_rows(), vec![2, 5]);
    assert!(dv.is_deleted(5));
    assert!(!dv.is_deleted(3));
}

#[test]
fn vector_survives_serialize_and_deserialize() {
    for rows in [0u32, 1, 2, 17, 1000] {
        let mut dv = DeletionVector::new(rows);
        let mut offset = 0;
        while offset < rows {
            dv.mark_deleted(offset);
            offset += 1 + offset / 3;
        }
        let read = DeletionVector::deserialize(&dv.serialize()).unwrap();
        assert_eq!(read.max_rows(), rows);
        assert_eq!(read.collect_deleted_rows(), dv.collect_deleted_rows());
        assert_eq!(read.serialize(), dv.serialize());
    }
    let mut full = DeletionVector::new(64);
    for offset in (0..64).rev() {
        full.mark_deleted(offset);
    }
    let read = DeletionVector::deserialize(&full.serialize()).unwrap();
    assert_eq!(read.collect_deleted_rows(), (0..64).collect::<Vec<u32>>());
}

#[test]
fn short_blob_is_truncated() {
    assert_eq!(DeletionVector::deserialize(&[]).unwrap_err(), BlobError::Truncated);
    assert_eq!(DeletionVector::deserialize(&TWO_OF_TEN[..15]).unwrap_err(), BlobError::Truncated);
}

#[test]
fn foreign_blob_has_bad_magic() {
    let mut blob = TWO_OF_TEN.to_vec();
    blob[0] = 0x00;
    assert_eq!(DeletionVector::deserialize(&blob).unwrap_err(), BlobError::BadMagic);
    assert_eq!(DeletionVector::deserialize(&[0u8; 16]).unwrap_err(), BlobError::BadMagic);
}

#[test]
fn cut_blob_has_length_mismatch() {
    assert_eq!(
        DeletionVector::deserialize(&TWO_OF_TEN[..20]).unwrap_err(),
        BlobError::LengthMismatch
    );
    assert_eq!(
        DeletionVector::deserialize(&TWO_OF_TEN[..23]).unwrap_err(),
        BlobError::LengthMismatch
    );
    let mut longer = TWO_OF_TEN.to_vec();
    longer.push(0);
    assert_eq!(DeletionVector::deserialize(&longer).unwrap_err(), BlobError::LengthMismatch);
}

#[test]
fn flipped_bit_is_checksum_mismatch() {
    for at in 4..24 {
        if (8..12).contains(&at) {
            continue;
        }
        let mut blob = TWO_OF_TEN.to_vec();
        blob[at] ^= 0x01;
        assert_eq!(DeletionVector::deserialize(&blob).unwrap_err(), BlobError::ChecksumMismatch);
    }
}

#[test]
fn unsorted_or_far_offsets_are_invalid() {
    let unsorted = [
        0xD1, 0xD3, 0x39, 0x64, 0x0A, 0x00, 0x00, 0x00, 0x02, 0x00, 0x00, 0x00, 0x05, 0x00, 0x00,
        0x00, 0x02, 0x00, 0x00, 0x00, 0x55, 0x02, 0x9F, 0x2B,
    ];
    assert_eq!(DeletionVector::deserialize(&unsorted).unwrap_err(), BlobError::InvalidPositions);
    let beyond = [
        0xD1, 0xD3, 0x39, 0x64, 0x03, 0x00, 0x00, 0x00, 0x01, 0x00, 0x00, 0x00, 0x03, 0x00, 0x00,
        0x00, 0x49, 0x02, 0xE7, 0x21,
    ];
    assert_eq!(DeletionVector::deserialize(&beyond).unwrap_err(), BlobError::InvalidPositions);
}
