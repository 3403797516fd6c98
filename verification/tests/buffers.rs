use mooncake_table::buffer::{DataFile, MutableBuffer};
use mooncake_table::codec::WalRecord;
use mooncake_table::position::PositionDelete;
use mooncake_table::readback::read_ids_from_data_file;
use mooncake_table::row::{batch_rows, test_row, MoonlinkRow, RowValue};

fn ids_of(files: &[DataFile]) -> Vec<Vec<Option<i32>>> {
    files.iter().map(read_ids_from_data_file).collect()
}

#[test]
fn batches_are_sealed_at_the_batch_size() {
    let mut buffer = MutableBuffer::new(2);
    assert_eq!(buffer.batch_count(), 0);
    for (k, row) in batch_rows(0, 5).into_iter().enumerate() {
        buffer.append(row);
        assert_eq!(buffer.batch_count(), k / 2 + 1);
    }
    buffer.commit(1);
    let files = buffer.flush(1);
    assert_eq!(
        ids_of(&files),
        vec![vec![Some(0), Some(1)], vec![Some(2), Some(3)], vec![Some(4)]]
    );
    assert!(files.iter().all(|file| file.lsn() == 1));
    assert_eq!(buffer.batch_count(), 0);
}

#[test]
fn commit_seals_the_open_batch() {
    let mut buffer = MutableBuffer::new(3);
    buffer.append(test_row(1, "a", 1));
    buffer.commit(1);
    buffer.append(test_row(2, "b", 2));
    buffer.append(test_row(3, "c", 3));
    assert_eq!(buffer.batch_count(), 2);
    buffer.commit(2);
    let files = buffer.flush(2);
    assert_eq!(ids_of(&files), vec![vec![Some(1)], vec![Some(2), Some(3)]]);
    assert_eq!(files[0].lsn(), 1);
    assert_eq!(files[1].lsn(), 2);
    assert_eq!(files[1].row_count(), 2);
}

#[test]
fn flush_takes_only_what_is_committed_at_or_below() {
    let mut buffer = MutableBuffer::new(2);
    buffer.append(test_row(1, "a", 1));
    assert!(buffer.flush(100).is_empty());
    buffer.commit(5);
    buffer.append(test_row(2, "b", 2));
    buffer.append(test_row(3, "c", 3));
    buffer.append(test_row(4, "d", 4));
    assert!(buffer.flush(4).is_empty());
    assert_eq!(ids_of(&buffer.flush(5)), vec![vec![Some(1)]]);
    buffer.commit(9);
    assert!(buffer.flush(8).is_empty());
    assert_eq!(ids_of(&buffer.flush(10)), vec![vec![Some(2), Some(3)], vec![Some(4)]]);
}

#[test]
fn second_flush_finds_nothing() {
    let mut buffer = MutableBuffer::new(2);
    for row in batch_rows(0, 3) {
        buffer.append(row);
    }
    buffer.commit(1);
    assert_eq!(buffer.flush(1).len(), 2);
    assert!(buffer.flush(1).is_empty());
    assert!(buffer.flush(2).is_empty());
    assert_eq!(buffer.batch_count(), 0);
}

#[test]
fn rows_are_kept_whatever_the_batch_size() {
    for batch_size in [1usize, 2, 3, 7, 10, 11, 1000] {
        let mut buffer = MutableBuffer::new(batch_size);
        for row in batch_rows(0, 10) {
            buffer.append(row);
        }
        buffer.commit(1);
        let files = buffer.flush(1);
        assert_eq!(files.len(), (10 + batch_size - 1) / batch_size);
        let ids: Vec<Option<i32>> = ids_of(&files).into_iter().flatten().collect();
        assert_eq!(ids, (0..10).map(Some).collect::<Vec<_>>());
        let mut k: i32 = 0;
        for file in &files {
            for row in file.rows() {
                assert!(row.same(&test_row(k, &format!("Row {k}"), 30 + k)));
                k += 1;
            }
        }
    }
}

#[test]
fn replay_rebuilds_the_buffer() {
    let records = || {
        vec![
            WalRecord::Append(test_row(1, "a", 1)),
            WalRecord::Delete(PositionDelete::new(0, 0)),
            WalRecord::Commit(1),
            WalRecord::Append(test_row(2, "b", 2)),
            WalRecord::Append(test_row(3, "c", 3)),
            WalRecord::Append(test_row(4, "d", 4)),
            WalRecord::Commit(2),
            WalRecord::Append(test_row(5, "e", 5)),
        ]
    };
    let mut live = MutableBuffer::new(2);
    for record in records() {
        live.apply(record);
    }
    let mut rebuilt = MutableBuffer::replay(2, records());
    assert_eq!(rebuilt.batch_count(), 4);
    assert_eq!(live.batch_count(), 4);
    assert_eq!(ids_of(&rebuilt.flush(1)), ids_of(&live.flush(1)));
    let late = rebuilt.flush(2);
    assert_eq!(ids_of(&late), vec![vec![Some(2), Some(3)], vec![Some(4)]]);
    assert_eq!(ids_of(&late), ids_of(&live.flush(2)));
    assert_eq!(rebuilt.batch_count(), 1);
}

#[test]
fn data_file_shows_its_rows() {
    let file = DataFile::new(
        vec![
            test_row(4, "a", 1),
            MoonlinkRow::new(vec![RowValue::Null, RowValue::Null, RowValue::Null]),
            MoonlinkRow::new(vec![]),
            test_row(-4, "b", 2),
        ],
        9,
    );
    assert_eq!(file.row_count(), 4);
    assert_eq!(file.reachable_rows(), 4);
    assert_eq!(file.lsn(), 9);
    assert_eq!(read_ids_from_data_file(&file), vec![Some(4), None, None, Some(-4)]);
}
