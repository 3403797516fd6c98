use arrow_array::Int32Array;
use mooncake_table::columns::{read_ids_from_column, Int32Column};
use mooncake_table::deletion_vector::DeletionVector;
use mooncake_table::position::{DeletionVectorRef, PositionDelete};
use mooncake_table::puffin::PuffinFile;
use mooncake_table::readback::{
    apply_position_deletes, collect_present, collect_remaining_ids, count_distinct_ids,
    load_position_deletes,
    same_ids, sort_ids, verify_file_contents, verify_files_and_deletions,
    verify_files_and_deletions_impl,
};
use mooncake_table::table::TableError;

fn five_files() -> Vec<Vec<Option<i32>>> {
    (0..5).map(|f| vec![Some(2 * f), Some(2 * f + 1)]).collect()
}

#[test]
fn column_is_read_slot_by_slot() {
    let column = Int32Column { array: Int32Array::from(vec![Some(5), None, Some(-7), Some(0)]) };
    assert_eq!(read_ids_from_column(&column), vec![Some(5), None, Some(-7), Some(0)]);
    let dense = Int32Column { array: Int32Array::from(vec![3, 2, 1]) };
    assert_eq!(read_ids_from_column(&dense), vec![Some(3), Some(2), Some(1)]);
    let empty = Int32Column { array: Int32Array::from(Vec::<i32>::new()) };
    assert_eq!(read_ids_from_column(&empty), Vec::<Option<i32>>::new());
}

#[test]
fn ids_are_sorted_ascending() {
    assert_eq!(sort_ids(&[3, -1, 2, 3, i32::MIN, 0, i32::MAX]), vec![
        i32::MIN,
        -1,
        0,
        2,
        3,
        3,
        i32::MAX
    ]);
    assert_eq!(sort_ids(&[]), Vec::<i32>::new());
    assert_eq!(sort_ids(&[1, 2, 3]), vec![1, 2, 3]);
    assert_eq!(sort_ids(&[3, 2, 1]), vec![1, 2, 3]);
    assert!(same_ids(&[1, 2], &[1, 2]));
    assert!(!same_ids(&[1, 2], &[2, 1]));
    assert!(!same_ids(&[1, 2], &[1, 2, 3]));
}

#[test]
fn deletes_empty_the_rows_they_name() {
    let ids = vec![Some(10), Some(11), None, Some(13)];
    let deletes = vec![
        PositionDelete::new(1, 3),
        PositionDelete::new(0, 0),
        PositionDelete::new(1, 1),
        PositionDelete::new(1, 4),
        PositionDelete::new(1, 1),
        PositionDelete::new(1, 2),
    ];
    assert_eq!(apply_position_deletes(&ids, 1, &deletes), vec![Some(10), None, None, None]);
    assert_eq!(apply_position_deletes(&ids, 0, &deletes), vec![None, Some(11), None, Some(13)]);
    assert_eq!(apply_position_deletes(&ids, 2, &deletes), ids);
    assert_eq!(collect_present(&ids), vec![10, 11, 13]);
    assert_eq!(collect_present(&[None, None]), Vec::<i32>::new());
}

#[test]
fn remaining_ids_follow_file_and_row_order() {
    let files = vec![vec![Some(5), Some(4)], vec![], vec![None, Some(3)], vec![Some(9)]];
    let deletes = vec![PositionDelete::new(0, 0), PositionDelete::new(3, 0)];
    assert_eq!(collect_remaining_ids(&files, &[]), vec![5, 4, 3, 9]);
    assert_eq!(collect_remaining_ids(&files, &deletes), vec![4, 3]);
}

#[test]
fn files_and_deletions_are_verified_against_sorted_ids() {
    let files = five_files();
    assert!(verify_files_and_deletions_impl(&files, &[], &[0, 1, 2, 3, 4, 5, 6, 7, 8, 9]));
    assert!(!verify_files_and_deletions_impl(&files, &[], &[1, 0, 2, 3, 4, 5, 6, 7, 8, 9]));
    assert!(!verify_files_and_deletions_impl(&files, &[], &[0, 1, 2, 3, 4, 5, 6, 7, 8]));
    let deletes = vec![PositionDelete::new(2, 0)];
    assert!(verify_files_and_deletions_impl(&files, &deletes, &[0, 1, 2, 3, 5, 6, 7, 8, 9]));
    assert!(!verify_files_and_deletions_impl(&files, &deletes, &[0, 1, 2, 3, 4, 5, 6, 7, 8, 9]));
}

#[test]
fn stray_and_repeated_deletes_are_tolerated() {
    let files = five_files();
    let deletes = vec![
        PositionDelete::new(2, 0),
        PositionDelete::new(2, 0),
        PositionDelete::new(2, 2),
        PositionDelete::new(5, 0),
        PositionDelete::new(u32::MAX, u32::MAX),
    ];
    assert!(verify_files_and_deletions_impl(&files, &deletes, &[0, 1, 2, 3, 5, 6, 7, 8, 9]));
}

#[test]
fn repeated_ids_count_as_often_as_they_occur() {
    let files = vec![vec![Some(1), Some(1)], vec![Some(1), Some(0)]];
    assert!(verify_files_and_deletions_impl(&files, &[], &[0, 1, 1, 1]));
    assert!(!verify_files_and_deletions_impl(&files, &[], &[0, 1, 1]));
    assert!(!verify_files_and_deletions_impl(&files, &[], &[0, 1]));
}

#[test]
fn file_contents_are_verified_as_a_set() {
    let ids = vec![Some(3), None, Some(1), Some(3)];
    assert!(verify_file_contents(&ids, &[1, 3], None));
    assert!(verify_file_contents(&ids, &[3, 1, 1], Some(2)));
    assert!(!verify_file_contents(&ids, &[1, 3], Some(3)));
    assert!(!verify_file_contents(&ids, &[1, 3], Some(4)));
    assert!(!verify_file_contents(&ids, &[1], None));
    assert!(!verify_file_contents(&ids, &[1, 2, 3], None));
    assert!(!verify_file_contents(&ids, &[1, 2], Some(2)));
    assert!(verify_file_contents(&[], &[], Some(0)));
    assert!(verify_file_contents(&[None], &[], None));
    assert!(!verify_file_contents(&[], &[0], None));
}

fn container_with(vectors: &[(u32, &[u32])]) -> (Vec<u8>, Vec<(u64, u64)>) {
    let mut file = PuffinFile::new();
    let mut places = Vec::new();
    for (rows, offsets) in vectors {
        let mut dv = DeletionVector::new(*rows);
        for offset in offsets.iter() {
            dv.mark_deleted(*offset);
        }
        let at = file.add_blob(&dv.serialize());
        places.push((at.offset, at.size));
    }
    (file.bytes().clone(), places)
}

#[test]
fn deletion_vectors_become_position_deletes() {
    let (bytes, places) = container_with(&[(2, &[1]), (2, &[0, 1])]);
    let puffins = vec![bytes];
    let first = DeletionVectorRef {
        data_file_number: 4,
        puffin_file_number: 0,
        offset: places[0].0,
        size: places[0].1,
    };
    let second = DeletionVectorRef {
        data_file_number: 1,
        puffin_file_number: 0,
        offset: places[1].0,
        size: places[1].1,
    };
    assert_eq!(load_position_deletes(&puffins, first), Ok(vec![PositionDelete::new(4, 1)]));
    assert_eq!(
        load_position_deletes(&puffins, second),
        Ok(vec![PositionDelete::new(1, 0), PositionDelete::new(1, 1)])
    );
    let files = five_files();
    assert_eq!(
        verify_files_and_deletions(
            &files,
            &puffins,
            vec![PositionDelete::new(0, 0)],
            vec![first, second],
            &[1, 4, 5, 6, 7, 8]
        ),
        Ok(true)
    );
    assert_eq!(
        verify_files_and_deletions(&files, &puffins, vec![], vec![first], &[0, 1, 2, 3, 4, 5]),
        Ok(false)
    );
    assert_eq!(
        verify_files_and_deletions(&files, &[], vec![], vec![], &[0, 1, 2, 3, 4, 5, 6, 7, 8, 9]),
        Ok(true)
    );
}

#[test]
fn unreadable_deletion_vectors_are_faults() {
    let (bytes, places) = container_with(&[(2, &[1]), (2, &[])]);
    let puffins = vec![bytes];
    let good = DeletionVectorRef {
        data_file_number: 0,
        puffin_file_number: 0,
        offset: places[0].0,
        size: places[0].1,
    };
    let files = five_files();
    let missing = DeletionVectorRef { puffin_file_number: 1, ..good };
    assert_eq!(load_position_deletes(&puffins, missing), Err(TableError::StorageIOFailure));
    let beyond = DeletionVectorRef { size: good.size + 100, ..good };
    assert_eq!(load_position_deletes(&puffins, beyond), Err(TableError::StorageIOFailure));
    let shifted = DeletionVectorRef { offset: good.offset + 1, ..good };
    assert_eq!(load_position_deletes(&puffins, shifted), Err(TableError::BlobCorruption));
    let empty = DeletionVectorRef { offset: places[1].0, size: places[1].1, ..good };
    assert_eq!(load_position_deletes(&puffins, empty), Err(TableError::BlobCorruption));
    assert_eq!(
        verify_files_and_deletions(&files, &puffins, vec![], vec![good, shifted, missing], &[]),
        Err(TableError::BlobCorruption)
    );
    assert_eq!(
        verify_files_and_deletions(&files, &puffins, vec![], vec![missing, shifted], &[]),
        Err(TableError::StorageIOFailure)
    );
}

#[test]
fn different_ids_are_counted_once() {
    assert_eq!(count_distinct_ids(&[]), 0);
    assert_eq!(count_distinct_ids(&[None, None]), 0);
    assert_eq!(count_distinct_ids(&[Some(3), None, Some(1), Some(3)]), 2);
    assert_eq!(count_distinct_ids(&[Some(0), Some(1), Some(2)]), 3);
}
