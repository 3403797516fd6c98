use mooncake_table::cache::ObjectStorageCache;
use mooncake_table::codec::{record_frame, WalRecord};
use mooncake_table::config::{
    test_iceberg_table_config, test_mooncake_table_config, IcebergCatalogConfig, StorageConfig,
};
use mooncake_table::deletion_vector::{DeletionVector, MarkOutcome};
use mooncake_table::fixtures::{
    append_commit_flush_create_mooncake_snapshot_for_test, append_rows, test_append_only_table,
    test_table,
};
use mooncake_table::position::PositionDelete;
use mooncake_table::puffin::PuffinStore;
use mooncake_table::readback::{read_ids_from_data_file, verify_files_and_deletions};
use mooncake_table::row::{
    batch_rows, create_test_schema, test_row, IdentityProp, MoonlinkRow, RowValue,
};
use mooncake_table::snapshot::{
    get_data_files_for_read, get_deletion_puffin_files_for_read, Snapshot,
};
use mooncake_table::table::{MooncakeTable, TableError, TablePhase};
use mooncake_table::wal::Wal;
use std::collections::HashSet;

fn table_with(batch_size: usize, wal: Wal) -> MooncakeTable {
    let mut config = test_mooncake_table_config("/data");
    config.batch_size = batch_size;
    MooncakeTable::new(
        create_test_schema(),
        "events".to_string(),
        1,
        "/data".to_string(),
        test_iceberg_table_config("/data", "events"),
        config,
        wal,
        ObjectStorageCache::new("/cache"),
        PuffinStore::new(),
    )
    .unwrap()
}

fn file_ids(table: &MooncakeTable) -> Vec<Vec<Option<i32>>> {
    table.data_files().iter().map(read_ids_from_data_file).collect()
}

fn puffin_bytes(table: &MooncakeTable, snapshot: &Snapshot) -> Vec<Vec<u8>> {
    snapshot
        .puffin_cache_handles
        .iter()
        .map(|handle| table.puffin_store().get(handle.get_file_id()).unwrap().bytes().clone())
        .collect()
}

fn verified(table: &MooncakeTable, snapshot: &Snapshot, expected: &[i32]) -> Result<bool, TableError> {
    let files: Vec<Vec<Option<i32>>> =
        file_ids(table).into_iter().take(snapshot.data_files.len()).collect();
    verify_files_and_deletions(
        &files,
        &puffin_bytes(table, snapshot),
        snapshot.position_deletes.clone(),
        snapshot.deletion_vectors.clone(),
        expected,
    )
}

#[test]
fn ten_rows_in_batches_of_two_make_five_files() {
    let mut table = test_table("/tmp", "/data", "events", IdentityProp::NoIdentity);
    let snapshot =
        append_commit_flush_create_mooncake_snapshot_for_test(&mut table, batch_rows(0, 10), 1)
            .unwrap();
    assert_eq!(snapshot.lsn, 1);
    assert_eq!(snapshot.data_files.len(), 5);
    let rows: usize = snapshot.data_files.iter().map(|file| file.get_row_count()).sum();
    assert_eq!(rows, 10);
    let ids: HashSet<i32> = file_ids(&table).into_iter().flatten().flatten().collect();
    assert_eq!(ids, (0..10).collect::<HashSet<i32>>());
    assert_eq!(file_ids(&table).into_iter().flatten().count(), 10);
    assert!(snapshot.position_deletes.is_empty());
    assert!(snapshot.deletion_vectors.is_empty());
    assert!(snapshot.puffin_cache_handles.is_empty());
    assert_eq!(
        get_data_files_for_read(&snapshot.data_files),
        vec![
            "/data/data-0.parquet",
            "/data/data-1.parquet",
            "/data/data-2.parquet",
            "/data/data-3.parquet",
            "/data/data-4.parquet"
        ]
    );
    assert_eq!(verified(&table, &snapshot, &[0, 1, 2, 3, 4, 5, 6, 7, 8, 9]), Ok(true));
    assert_eq!(table.flushed_lsn(), Some(1));
    assert_eq!(table.wal().len(), 0);
}

#[test]
fn deleted_row_is_gone_from_the_next_snapshot() {
    let mut table = test_table("/tmp", "/data", "events", IdentityProp::NoIdentity);
    let first =
        append_commit_flush_create_mooncake_snapshot_for_test(&mut table, batch_rows(0, 10), 1)
            .unwrap();
    assert_eq!(table.delete(PositionDelete::new(2, 0)), Ok(MarkOutcome::Marked));
    assert_eq!(table.commit(2), Ok(()));
    let pending = table.create_snapshot(2).unwrap();
    assert_eq!(pending.position_deletes, vec![PositionDelete::new(2, 0)]);
    assert!(pending.deletion_vectors.is_empty());
    assert_eq!(verified(&table, &pending, &[0, 1, 2, 3, 5, 6, 7, 8, 9]), Ok(true));
    assert_eq!(table.flush_and_sync(2), Ok(()));
    let synced = table.create_snapshot(2).unwrap();
    assert!(synced.position_deletes.is_empty());
    assert_eq!(synced.deletion_vectors.len(), 1);
    assert_eq!(synced.deletion_vectors[0].data_file_number, 2);
    assert_eq!(synced.deletion_vectors[0].puffin_file_number, 0);
    assert_eq!(synced.puffin_cache_handles.len(), 1);
    assert_eq!(
        get_deletion_puffin_files_for_read(&synced.puffin_cache_handles),
        vec!["/tmp/puffin-0"]
    );
    let puffins = puffin_bytes(&table, &synced);
    let at = synced.deletion_vectors[0];
    let blob = mooncake_table::puffin::load_blob(&puffins[0], at.offset, at.size).unwrap();
    let vector = DeletionVector::deserialize(&blob).unwrap();
    assert_eq!(vector.collect_deleted_rows(), vec![0]);
    assert_eq!(vector.max_rows(), 2);
    assert_eq!(verified(&table, &synced, &[0, 1, 2, 3, 5, 6, 7, 8, 9]), Ok(true));
    assert_eq!(verified(&table, &synced, &[0, 1, 2, 3, 4, 5, 6, 7, 8, 9]), Ok(false));
    assert_eq!(verified(&table, &first, &[0, 1, 2, 3, 4, 5, 6, 7, 8, 9]), Ok(true));
    let earlier = table.create_snapshot(1).unwrap();
    assert!(earlier.position_deletes.is_empty());
    assert!(earlier.deletion_vectors.is_empty());
    assert_eq!(earlier.data_files.len(), 5);
}

#[test]
fn repeated_delete_leaves_one_entry() {
    let mut table = test_table("/tmp", "/data", "events", IdentityProp::NoIdentity);
    append_commit_flush_create_mooncake_snapshot_for_test(&mut table, batch_rows(0, 10), 1)
        .unwrap();
    assert_eq!(table.delete(PositionDelete::new(3, 1)), Ok(MarkOutcome::Marked));
    assert_eq!(table.delete(PositionDelete::new(3, 1)), Ok(MarkOutcome::DuplicateDelete));
    assert_eq!(table.commit(2), Ok(()));
    assert_eq!(table.delete(PositionDelete::new(3, 1)), Ok(MarkOutcome::DuplicateDelete));
    assert_eq!(table.commit(3), Ok(()));
    assert_eq!(table.flush_and_sync(3), Ok(()));
    let snapshot = table.create_snapshot(3).unwrap();
    assert_eq!(snapshot.deletion_vectors.len(), 1);
    let puffins = puffin_bytes(&table, &snapshot);
    let at = snapshot.deletion_vectors[0];
    let blob = mooncake_table::puffin::load_blob(&puffins[0], at.offset, at.size).unwrap();
    assert_eq!(DeletionVector::deserialize(&blob).unwrap().collect_deleted_rows(), vec![1]);
    assert_eq!(verified(&table, &snapshot, &[0, 1, 2, 3, 4, 5, 6, 8, 9]), Ok(true));
}

#[test]
fn delete_outside_the_files_is_reported() {
    let mut table = test_table("/tmp", "/data", "events", IdentityProp::NoIdentity);
    assert_eq!(table.delete(PositionDelete::new(0, 0)), Ok(MarkOutcome::DeletionOutOfRange));
    append_commit_flush_create_mooncake_snapshot_for_test(&mut table, batch_rows(0, 3), 1)
        .unwrap();
    assert_eq!(table.delete(PositionDelete::new(2, 0)), Ok(MarkOutcome::DeletionOutOfRange));
    assert_eq!(table.delete(PositionDelete::new(1, 1)), Ok(MarkOutcome::DeletionOutOfRange));
    assert_eq!(table.delete(PositionDelete::new(0, 2)), Ok(MarkOutcome::DeletionOutOfRange));
    assert_eq!(table.delete(PositionDelete::new(1, 0)), Ok(MarkOutcome::Marked));
    assert_eq!(table.wal().len(), 1);
}

#[test]
fn uncommitted_delete_is_not_visible() {
    let mut table = test_table("/tmp", "/data", "events", IdentityProp::NoIdentity);
    append_commit_flush_create_mooncake_snapshot_for_test(&mut table, batch_rows(0, 4), 1)
        .unwrap();
    assert_eq!(table.delete(PositionDelete::new(0, 0)), Ok(MarkOutcome::Marked));
    let snapshot = table.create_snapshot(100).unwrap();
    assert!(snapshot.position_deletes.is_empty());
    assert_eq!(table.commit(7), Ok(()));
    assert!(table.create_snapshot(6).unwrap().position_deletes.is_empty());
    assert_eq!(
        table.create_snapshot(7).unwrap().position_deletes,
        vec![PositionDelete::new(0, 0)]
    );
}

#[test]
fn append_only_table_refuses_deletes() {
    let mut table = test_append_only_table("/tmp", "/data", "events");
    append_commit_flush_create_mooncake_snapshot_for_test(&mut table, batch_rows(0, 4), 1)
        .unwrap();
    assert_eq!(table.delete(PositionDelete::new(0, 0)), Err(TableError::AppendOnly));
    assert_eq!(table.file_count(), 2);
    assert!(!table.is_halted());
}

#[test]
fn row_of_another_shape_is_refused() {
    let mut table = test_table("/tmp", "/data", "events", IdentityProp::NoIdentity);
    assert_eq!(table.append(test_row(1, "a", 1)), Ok(()));
    assert_eq!(
        table.append(MoonlinkRow::new(vec![RowValue::Int32(2)])),
        Err(TableError::SchemaMismatch)
    );
    assert_eq!(
        table.append(MoonlinkRow::new(vec![
            RowValue::Int32(2),
            RowValue::Int32(2),
            RowValue::Int32(2)
        ])),
        Err(TableError::SchemaMismatch)
    );
    assert!(!table.is_halted());
    assert_eq!(table.wal().len(), 1);
    assert_eq!(table.commit(1), Ok(()));
    assert_eq!(table.flush_and_sync(1), Ok(()));
    assert_eq!(file_ids(&table), vec![vec![Some(1)]]);
}

#[test]
fn append_rows_stops_at_the_first_refused_row() {
    let mut table = test_table("/tmp", "/data", "events", IdentityProp::NoIdentity);
    let rows = vec![
        test_row(1, "a", 1),
        test_row(2, "b", 2),
        MoonlinkRow::new(vec![]),
        test_row(3, "c", 3),
    ];
    assert_eq!(append_rows(&mut table, rows), Err(TableError::SchemaMismatch));
    assert_eq!(table.wal().len(), 2);
    assert_eq!(append_rows(&mut table, vec![]), Ok(()));
    assert_eq!(append_rows(&mut table, batch_rows(3, 2)), Ok(()));
    assert_eq!(table.commit(1), Ok(()));
    assert_eq!(table.flush_and_sync(1), Ok(()));
    assert_eq!(file_ids(&table), vec![vec![Some(1), Some(2)], vec![Some(3), Some(4)]]);
}

#[test]
fn full_log_halts_the_table() {
    let mut table = table_with(2, Wal::new(70));
    assert_eq!(table.append(test_row(1, "ab", 1)), Ok(()));
    assert_eq!(table.append(test_row(2, "cd", 2)), Ok(()));
    assert_eq!(table.append(test_row(3, "ef", 3)), Err(TableError::DurabilityFailure));
    assert!(table.is_halted());
    assert_eq!(table.wal().len(), 2);
    assert_eq!(table.append(test_row(4, "gh", 4)), Err(TableError::DurabilityFailure));
    assert_eq!(table.commit(1), Err(TableError::DurabilityFailure));
    assert_eq!(table.flush_and_sync(1), Err(TableError::DurabilityFailure));
    assert_eq!(table.file_count(), 0);
    assert_eq!(
        table.append(MoonlinkRow::new(vec![])),
        Err(TableError::SchemaMismatch)
    );
}

#[test]
fn commit_with_stale_lsn_halts_the_table() {
    let mut table = test_table("/tmp", "/data", "events", IdentityProp::NoIdentity);
    assert_eq!(table.commit(5), Ok(()));
    assert_eq!(table.commit(5), Err(TableError::DurabilityFailure));
    assert!(table.is_halted());
    assert_eq!(table.wal().last_lsn(), Some(5));
}

#[test]
fn invalid_configuration_makes_no_table() {
    let make = |batch_size: usize, identity: IdentityProp, append_only: bool| {
        let mut config = test_mooncake_table_config("/data");
        config.batch_size = batch_size;
        config.row_identity = identity;
        config.append_only = append_only;
        MooncakeTable::new(
            create_test_schema(),
            "events".to_string(),
            1,
            "/data".to_string(),
            test_iceberg_table_config("/data", "events"),
            config,
            Wal::new(100),
            ObjectStorageCache::new("/cache"),
            PuffinStore::new(),
        )
        .map(|_| ())
    };
    assert_eq!(make(0, IdentityProp::NoIdentity, false), Err(TableError::InvalidConfig));
    assert_eq!(make(1, IdentityProp::Keys(vec![]), false), Err(TableError::InvalidConfig));
    assert_eq!(make(1, IdentityProp::Keys(vec![0, 3]), false), Err(TableError::InvalidConfig));
    assert_eq!(make(1, IdentityProp::Keys(vec![0]), true), Err(TableError::InvalidConfig));
    assert_eq!(make(1, IdentityProp::Keys(vec![2, 0]), false), Ok(()));
    assert_eq!(make(1, IdentityProp::NoIdentity, true), Ok(()));
}

#[test]
fn readable_ids_do_not_depend_on_the_batch_size() {
    for batch_size in [1usize, 2, 3, 4, 9, 10, 64] {
        let mut table = table_with(batch_size, Wal::new(100_000));
        let snapshot =
            append_commit_flush_create_mooncake_snapshot_for_test(&mut table, batch_rows(0, 10), 1)
                .unwrap();
        assert_eq!(snapshot.data_files.len(), (10 + batch_size - 1) / batch_size);
        assert_eq!(verified(&table, &snapshot, &[0, 1, 2, 3, 4, 5, 6, 7, 8, 9]), Ok(true));
        let ids: Vec<Option<i32>> = file_ids(&table).into_iter().flatten().collect();
        assert_eq!(ids, (0..10).map(Some).collect::<Vec<_>>());
    }
}

#[test]
fn crash_between_commit_and_flush_loses_nothing() {
    let mut live = table_with(2, Wal::new(100_000));
    assert_eq!(append_rows(&mut live, batch_rows(0, 5)), Ok(()));
    assert_eq!(live.commit(1), Ok(()));
    assert_eq!(append_rows(&mut live, batch_rows(5, 3)), Ok(()));
    let mut image = live.wal().bytes().clone();
    let torn = record_frame(&WalRecord::Append(test_row(99, "torn", 0))).unwrap();
    image.extend(&torn[..torn.len() - 1]);
    let wal = Wal::recover(100_000, None, &image).unwrap();
    assert_eq!(wal.len(), 9);
    let mut recovered = table_with(2, wal);
    assert_eq!(recovered.flush_and_sync(1), Ok(()));
    assert_eq!(live.flush_and_sync(1), Ok(()));
    assert_eq!(file_ids(&recovered), file_ids(&live));
    assert_eq!(
        file_ids(&recovered),
        vec![vec![Some(0), Some(1)], vec![Some(2), Some(3)], vec![Some(4)]]
    );
    for (a, b) in recovered.data_files().iter().zip(live.data_files()) {
        assert_eq!(a.lsn(), b.lsn());
        assert_eq!(a.row_count(), b.row_count());
        for (x, y) in a.rows().iter().zip(b.rows()) {
            assert!(x.same(y));
        }
    }
    assert_eq!(recovered.commit(2), Ok(()));
    assert_eq!(live.commit(2), Ok(()));
    assert_eq!(recovered.flush_and_sync(2), Ok(()));
    assert_eq!(live.flush_and_sync(2), Ok(()));
    assert_eq!(file_ids(&recovered), file_ids(&live));
    assert_eq!(file_ids(&live)[3..], [vec![Some(5), Some(6)], vec![Some(7)]]);
}

#[test]
fn flush_is_idempotent_and_truncates_the_log() {
    let mut table = test_table("/tmp", "/data", "events", IdentityProp::NoIdentity);
    assert_eq!(append_rows(&mut table, batch_rows(0, 3)), Ok(()));
    assert_eq!(table.flush_and_sync(10), Ok(()));
    assert_eq!(table.file_count(), 0);
    assert_eq!(table.flushed_lsn(), None);
    assert_eq!(table.commit(4), Ok(()));
    assert_eq!(append_rows(&mut table, batch_rows(3, 1)), Ok(()));
    assert_eq!(table.wal().len(), 5);
    assert_eq!(table.flush_and_sync(3), Ok(()));
    assert_eq!(table.file_count(), 0);
    assert_eq!(table.flushed_lsn(), Some(3));
    assert_eq!(table.flush_and_sync(10), Ok(()));
    assert_eq!(table.file_count(), 2);
    assert_eq!(table.flushed_lsn(), Some(4));
    assert_eq!(table.wal().len(), 1);
    assert_eq!(table.flush_and_sync(10), Ok(()));
    assert_eq!(table.flush_and_sync(4), Ok(()));
    assert_eq!(table.file_count(), 2);
    assert_eq!(table.wal().len(), 1);
    assert_eq!(table.commit(4), Err(TableError::DurabilityFailure));
}

#[test]
fn snapshot_pins_are_given_back_on_release() {
    let mut table = test_table("/tmp", "/data", "events", IdentityProp::NoIdentity);
    append_commit_flush_create_mooncake_snapshot_for_test(&mut table, batch_rows(0, 6), 1)
        .unwrap();
    assert_eq!(table.delete(PositionDelete::new(0, 1)), Ok(MarkOutcome::Marked));
    assert_eq!(table.delete(PositionDelete::new(2, 0)), Ok(MarkOutcome::Marked));
    assert_eq!(table.commit(2), Ok(()));
    assert_eq!(table.flush_and_sync(2), Ok(()));
    let first = table.create_snapshot(2).unwrap();
    assert_eq!(first.deletion_vectors.len(), 2);
    assert_eq!(first.deletion_vectors[0].data_file_number, 0);
    assert_eq!(first.deletion_vectors[1].data_file_number, 2);
    assert_eq!(first.deletion_vectors[1].puffin_file_number, 1);
    assert_eq!(table.object_cache().pin_count(0), 2);
    let second = table.create_snapshot(5).unwrap();
    assert_eq!(table.object_cache().pin_count(0), 4);
    assert_eq!(table.evict_cache_to(0), Vec::<u64>::new());
    assert_eq!(verified(&table, &second, &[0, 2, 3, 5]), Ok(true));
    table.release_snapshot(first);
    assert_eq!(table.object_cache().pin_count(0), 2);
    assert_eq!(table.evict_cache_to(0), Vec::<u64>::new());
    assert!(table.object_cache().is_cached(0));
    table.release_snapshot(second);
    assert_eq!(table.object_cache().pin_count(0), 0);
    assert_eq!(table.evict_cache_to(0), vec![0]);
    assert!(!table.object_cache().is_cached(0));
    assert_eq!(table.object_cache().usage(), 0);
}

#[test]
fn later_deletes_go_into_a_new_container() {
    let mut table = test_table("/tmp", "/data", "events", IdentityProp::NoIdentity);
    append_commit_flush_create_mooncake_snapshot_for_test(&mut table, batch_rows(0, 6), 1)
        .unwrap();
    assert_eq!(table.delete(PositionDelete::new(0, 0)), Ok(MarkOutcome::Marked));
    assert_eq!(table.commit(2), Ok(()));
    assert_eq!(table.flush_and_sync(2), Ok(()));
    assert_eq!(table.puffin_store().len(), 1);
    assert_eq!(table.delete(PositionDelete::new(1, 1)), Ok(MarkOutcome::Marked));
    assert_eq!(table.delete(PositionDelete::new(1, 0)), Ok(MarkOutcome::Marked));
    assert_eq!(table.commit(3), Ok(()));
    assert_eq!(table.flush_and_sync(3), Ok(()));
    assert_eq!(table.puffin_store().len(), 2);
    assert_eq!(table.flush_and_sync(3), Ok(()));
    assert_eq!(table.puffin_store().len(), 2);
    let snapshot = table.create_snapshot(3).unwrap();
    let ids: Vec<u64> =
        snapshot.puffin_cache_handles.iter().map(|handle| handle.get_file_id()).collect();
    assert_eq!(ids, vec![0, 1]);
    assert_eq!(verified(&table, &snapshot, &[1, 4, 5]), Ok(true));
    let between = table.create_snapshot(2).unwrap();
    assert!(between.deletion_vectors.is_empty());
    assert_eq!(between.position_deletes, vec![PositionDelete::new(0, 0)]);
    assert_eq!(verified(&table, &between, &[1, 2, 3, 4, 5]), Ok(true));
}

#[test]
fn row_is_located_by_its_key() {
    let mut table = test_table("/tmp", "/data", "events", IdentityProp::Keys(vec![0]));
    assert_eq!(table.locate(&test_row(3, "Row 3", 33)), None);
    append_commit_flush_create_mooncake_snapshot_for_test(&mut table, batch_rows(0, 5), 1)
        .unwrap();
    assert_eq!(append_rows(&mut table, vec![test_row(3, "again", 0), test_row(9, "x", 0)]), Ok(()));
    assert_eq!(table.commit(2), Ok(()));
    assert_eq!(table.flush_and_sync(2), Ok(()));
    assert_eq!(table.locate(&test_row(3, "any name", -1)), Some(PositionDelete::new(1, 1)));
    assert_eq!(table.locate(&test_row(4, "", 0)), Some(PositionDelete::new(2, 0)));
    assert_eq!(table.locate(&test_row(5, "", 0)), None);
    assert_eq!(table.locate(&MoonlinkRow::new(vec![])), None);
    assert_eq!(
        table.delete_row(&test_row(3, "", 0)),
        (Some(PositionDelete::new(1, 1)), Ok(MarkOutcome::Marked))
    );
    assert_eq!(table.locate(&test_row(3, "", 0)), Some(PositionDelete::new(3, 0)));
    assert_eq!(
        table.delete_row(&test_row(3, "", 0)),
        (Some(PositionDelete::new(3, 0)), Ok(MarkOutcome::Marked))
    );
    assert_eq!(table.delete_row(&test_row(3, "", 0)), (None, Ok(MarkOutcome::DeletionOutOfRange)));
    assert_eq!(table.commit(3), Ok(()));
    let snapshot = table.create_snapshot(3).unwrap();
    assert_eq!(verified(&table, &snapshot, &[0, 1, 2, 4, 9]), Ok(true));
}

#[test]
fn row_is_located_by_all_its_key_columns() {
    let mut table = test_table("/tmp", "/data", "events", IdentityProp::Keys(vec![2, 1]));
    let rows = vec![test_row(1, "a", 7), test_row(2, "b", 7), test_row(3, "a", 8)];
    append_commit_flush_create_mooncake_snapshot_for_test(&mut table, rows, 1).unwrap();
    assert_eq!(table.locate(&test_row(0, "b", 7)), Some(PositionDelete::new(0, 1)));
    assert_eq!(table.locate(&test_row(0, "a", 8)), Some(PositionDelete::new(1, 0)));
    assert_eq!(table.locate(&test_row(0, "b", 8)), None);
}

#[test]
fn table_without_identity_locates_nothing() {
    let mut table = test_table("/tmp", "/data", "events", IdentityProp::NoIdentity);
    append_commit_flush_create_mooncake_snapshot_for_test(&mut table, batch_rows(0, 2), 1)
        .unwrap();
    assert_eq!(table.locate(&test_row(0, "Row 0", 30)), None);
    assert_eq!(
        table.delete_row(&test_row(0, "Row 0", 30)),
        (None, Ok(MarkOutcome::DeletionOutOfRange))
    );
    let mut grows = test_append_only_table("/tmp", "/data", "events");
    assert_eq!(grows.delete_row(&test_row(0, "", 0)), (None, Err(TableError::AppendOnly)));
}

#[test]
fn table_cycles_through_its_phases() {
    let mut table = test_table("/tmp", "/data", "events", IdentityProp::NoIdentity);
    assert_eq!(table.phase(), TablePhase::Open);
    assert_eq!(table.append(test_row(1, "a", 1)), Ok(()));
    assert_eq!(table.phase(), TablePhase::Open);
    assert_eq!(table.commit(1), Ok(()));
    assert_eq!(table.phase(), TablePhase::CommittedPendingFlush);
    assert_eq!(table.append(MoonlinkRow::new(vec![])), Err(TableError::SchemaMismatch));
    assert_eq!(table.phase(), TablePhase::CommittedPendingFlush);
    assert_eq!(table.flush_and_sync(1), Ok(()));
    assert_eq!(table.phase(), TablePhase::Flushed);
    let snapshot = table.create_snapshot(1).unwrap();
    assert_eq!(table.phase(), TablePhase::Snapshotted);
    table.release_snapshot(snapshot);
    assert_eq!(table.phase(), TablePhase::Snapshotted);
    assert_eq!(table.delete(PositionDelete::new(0, 0)), Ok(MarkOutcome::Marked));
    assert_eq!(table.phase(), TablePhase::Open);
    assert_eq!(table.append(test_row(2, "b", 2)), Ok(()));
    assert_eq!(table.commit(2), Ok(()));
    assert_eq!(table.phase(), TablePhase::CommittedPendingFlush);
}

#[test]
fn table_recovers_from_the_image_of_its_log() {
    let mut table = test_table("/tmp", "/data", "events", IdentityProp::NoIdentity);
    append_commit_flush_create_mooncake_snapshot_for_test(&mut table, batch_rows(0, 6), 1)
        .unwrap();
    assert_eq!(table.delete(PositionDelete::new(0, 0)), Ok(MarkOutcome::Marked));
    assert_eq!(table.commit(2), Ok(()));
    assert_eq!(table.flush_and_sync(2), Ok(()));
    assert_eq!(table.delete(PositionDelete::new(1, 1)), Ok(MarkOutcome::Marked));
    assert_eq!(append_rows(&mut table, batch_rows(6, 3)), Ok(()));
    assert_eq!(table.commit(3), Ok(()));
    assert_eq!(table.delete(PositionDelete::new(2, 0)), Ok(MarkOutcome::Marked));
    assert_eq!(append_rows(&mut table, batch_rows(9, 1)), Ok(()));
    let held = table.create_snapshot(3).unwrap();
    assert_eq!(table.object_cache().pin_count(0), 1);
    assert_eq!(held.position_deletes, vec![PositionDelete::new(1, 1)]);

    let mut image = table.wal().bytes().clone();
    let torn = record_frame(&WalRecord::Commit(4)).unwrap();
    image.extend(&torn[..9]);
    let log_length = table.wal().len();
    let mut table = table.recover(&image).unwrap();
    assert!(!table.is_halted());
    assert_eq!(table.phase(), TablePhase::Open);
    assert_eq!(table.wal().len(), log_length);
    assert_eq!(table.wal().last_lsn(), Some(3));
    assert_eq!(table.flushed_lsn(), Some(2));
    assert_eq!(table.file_count(), 3);
    assert_eq!(table.object_cache().pin_count(0), 0);
    assert!(!table.object_cache().is_cached(0));
    let again = table.create_snapshot(3).unwrap();
    assert_eq!(again.position_deletes, vec![PositionDelete::new(1, 1)]);
    assert_eq!(again.deletion_vectors, held.deletion_vectors);
    assert_eq!(verified(&table, &again, &[1, 2, 4, 5]), Ok(true));
    assert_eq!(table.delete(PositionDelete::new(2, 0)), Ok(MarkOutcome::DuplicateDelete));
    assert_eq!(table.commit(3), Err(TableError::DurabilityFailure));
    let mut table = table.recover(&image).unwrap();
    assert_eq!(table.commit(4), Ok(()));
    assert_eq!(table.flush_and_sync(4), Ok(()));
    assert_eq!(
        file_ids(&table)[3..],
        [vec![Some(6), Some(7)], vec![Some(8)], vec![Some(9)]]
    );
    let last = table.create_snapshot(4).unwrap();
    assert_eq!(verified(&table, &last, &[1, 2, 5, 6, 7, 8, 9]), Ok(true));
}

#[test]
fn halted_table_recovers_and_goes_on() {
    let mut table = table_with(2, Wal::new(70));
    assert_eq!(table.append(test_row(1, "ab", 1)), Ok(()));
    assert_eq!(table.append(test_row(2, "cd", 2)), Ok(()));
    assert_eq!(table.append(test_row(3, "ef", 3)), Err(TableError::DurabilityFailure));
    assert!(table.is_halted());
    let image = table.wal().bytes().clone();
    let mut table = table.recover(&image).unwrap();
    assert!(!table.is_halted());
    assert_eq!(table.wal().len(), 2);
    assert_eq!(table.flush_and_sync(1), Ok(()));
    assert_eq!(table.file_count(), 0);
}

#[test]
fn table_does_not_recover_from_another_log() {
    let fresh = || {
        let mut table = test_table("/tmp", "/data", "events", IdentityProp::NoIdentity);
        append_commit_flush_create_mooncake_snapshot_for_test(&mut table, batch_rows(0, 2), 5)
            .unwrap();
        table
    };
    let image_of = |records: Vec<WalRecord>| {
        let mut image: Vec<u8> = Vec::new();
        for record in records {
            image.extend(record_frame(&record).unwrap());
        }
        image
    };
    assert!(fresh().recover(&[]).is_ok());
    assert!(fresh().recover(&image_of(vec![WalRecord::Commit(6)])).is_ok());
    assert_eq!(
        fresh().recover(&image_of(vec![WalRecord::Commit(5)])).unwrap_err(),
        TableError::DurabilityFailure
    );
    let twice = vec![
        WalRecord::Delete(PositionDelete::new(0, 1)),
        WalRecord::Commit(6),
        WalRecord::Delete(PositionDelete::new(0, 1)),
    ];
    assert_eq!(fresh().recover(&image_of(twice)).unwrap_err(), TableError::DurabilityFailure);
    let beyond = vec![WalRecord::Delete(PositionDelete::new(1, 0))];
    assert_eq!(fresh().recover(&image_of(beyond)).unwrap_err(), TableError::DurabilityFailure);
    let mut damaged = image_of(vec![WalRecord::Commit(6)]);
    damaged[6] ^= 0x10;
    assert_eq!(fresh().recover(&damaged).unwrap_err(), TableError::DurabilityFailure);
    let fine = vec![
        WalRecord::Delete(PositionDelete::new(0, 1)),
        WalRecord::Append(test_row(7, "x", 7)),
        WalRecord::Commit(6),
        WalRecord::Delete(PositionDelete::new(0, 0)),
    ];
    let mut table = fresh().recover(&image_of(fine)).unwrap();
    assert_eq!(
        table.create_snapshot(6).unwrap().position_deletes,
        vec![PositionDelete::new(0, 1)]
    );
    assert_eq!(table.commit(7), Ok(()));
    assert_eq!(table.flush_and_sync(7), Ok(()));
    let snapshot = table.create_snapshot(7).unwrap();
    assert_eq!(verified(&table, &snapshot, &[7]), Ok(true));
}

#[test]
fn new_table_takes_only_the_log_of_a_table_without_files() {
    let make = |wal: Wal| {
        MooncakeTable::new(
            create_test_schema(),
            "events".to_string(),
            1,
            "/data".to_string(),
            test_iceberg_table_config("/data", "events"),
            test_mooncake_table_config("/data"),
            wal,
            ObjectStorageCache::new("/cache"),
            PuffinStore::new(),
        )
        .map(|table| table.wal().len())
    };
    let mut fine = Wal::new(1000);
    fine.append(WalRecord::Append(test_row(1, "a", 1))).unwrap();
    fine.commit_marker(3).unwrap();
    assert_eq!(make(fine), Ok(2));
    let mut with_delete = Wal::new(1000);
    with_delete.append(WalRecord::Delete(PositionDelete::new(0, 0))).unwrap();
    assert_eq!(make(with_delete), Err(TableError::DurabilityFailure));
    let mut truncated = Wal::new(1000);
    truncated.commit_marker(3).unwrap();
    truncated.truncate(3);
    assert_eq!(make(truncated), Err(TableError::DurabilityFailure));
    assert_eq!(make(Wal::recover(1000, Some(3), &[]).unwrap()), Err(TableError::DurabilityFailure));
}

fn storage_root(storage: &StorageConfig) -> (&str, bool) {
    match storage {
        StorageConfig::FileSystem { root_directory, atomic_write_dir } => {
            (root_directory.as_str(), atomic_write_dir.is_none())
        }
    }
}

#[test]
fn sample_table_is_made_with_id_one_and_both_directories() {
    let table = test_table("/tmp", "/tmp/sub", "events", IdentityProp::Keys(vec![0]));
    assert_eq!(table.table_id(), 1);
    assert_eq!(table.table_config().batch_size, 2);
    assert!(!table.table_config().append_only);
    assert!(matches!(&table.table_config().row_identity, IdentityProp::Keys(keys) if keys == &vec![0]));
    assert_eq!(table.table_config().temp_files_directory, "/tmp");
    let format = table.table_format_config();
    assert_eq!(format.namespace, vec!["default".to_string()]);
    assert_eq!(format.table_name, "events");
    assert_eq!(storage_root(&format.data_accessor_config.storage_config), ("/tmp/sub", true));
    let IcebergCatalogConfig::File { accessor_config } = &format.metadata_accessor_config;
    assert_eq!(storage_root(&accessor_config.storage_config), ("/tmp/sub", true));
    assert_eq!(table.file_count(), 0);
    assert_eq!(table.wal().len(), 0);
    assert_eq!(table.puffin_store().len(), 0);
    assert_eq!(table.object_cache().usage(), 0);

    let grows = test_append_only_table("/tmp", "/tmp/sub", "log");
    assert_eq!(grows.table_id(), 1);
    assert_eq!(grows.table_config().batch_size, 2);
    assert!(grows.table_config().append_only);
    assert!(matches!(grows.table_config().row_identity, IdentityProp::NoIdentity));
    assert_eq!(grows.table_config().temp_files_directory, "/tmp");
    assert_eq!(grows.table_format_config().table_name, "log");
}

#[test]
fn cache_of_the_sample_table_lies_in_the_temporary_directory() {
    let mut table = test_table("/tmp", "/tmp/sub", "events", IdentityProp::NoIdentity);
    append_commit_flush_create_mooncake_snapshot_for_test(&mut table, batch_rows(0, 2), 1)
        .unwrap();
    assert_eq!(table.delete(PositionDelete::new(0, 0)), Ok(MarkOutcome::Marked));
    let snapshot =
        append_commit_flush_create_mooncake_snapshot_for_test(&mut table, vec![], 2).unwrap();
    assert!(snapshot.position_deletes.is_empty());
    assert_eq!(snapshot.deletion_vectors.len(), 1);
    assert_eq!(
        get_deletion_puffin_files_for_read(&snapshot.puffin_cache_handles),
        vec!["/tmp/puffin-0"]
    );
    assert_eq!(
        get_data_files_for_read(&snapshot.data_files),
        vec!["/tmp/sub/data-0.parquet"]
    );
}
