//! Ready-made tables and whole runs: a table of sample rows in batches of
//! two, rows appended in bulk, and the run from append to snapshot.

use crate::buffer::{
    appended, appended_all, buffered_rows, committed, files_of, flush_count,
    lemma_append_commit_flush, reversed, stored_rows, BatchView, FileView,
};
use crate::cache::{cache_path, CacheView, EntryView, ObjectStorageCache};
use crate::codec::RecordView;
use crate::config::{
    config_valid, sample_format, test_iceberg_table_config, test_mooncake_table_config,
    DEFAULT_WAL_CAPACITY,
};
use crate::position::PositionDelete;
use crate::puffin::PuffinStore;
use crate::recovery::{has_marker, lemma_replayed_tags};
use crate::row::{
    create_test_schema, sample_columns, Identity, IdentityProp, MoonlinkRow, Value,
};
use crate::snapshot::{
    data_path, lemma_no_deletions_no_vectors, lemma_nothing_pending, lemma_visible_files,
    pin_fault, pinned_all, vector_ids, vector_refs, visible_files, Snapshot,
};
use crate::sync::StoredVector;
use crate::table::{
    lemma_appended_keeps_wf, lemma_committed_keeps_wf, lemma_flushed_keeps_wf, tagged,
    DeletionView, MooncakeTable, TableError, TablePhase, TableView,
};
use crate::wal::{Wal, WalView};
use vstd::prelude::*;
use vstd::seq_lib::lemma_flatten_concat;
use vstd::string::*;

verus! {

/// The table after the rows are offered one after the other, up to and with
/// the first that is refused.
pub open spec fn rows_appended(t: TableView, rows: Seq<Seq<Value>>) -> TableView
    decreases rows.len(),
{
    if rows.len() == 0 {
        t
    } else if t.append_fault(rows.first()).is_some() {
        t.appended(rows.first())
    } else {
        rows_appended(t.appended(rows.first()), rows.drop_first())
    }
}

/// Why the first row that is refused is refused, if one is.
pub open spec fn rows_fault(t: TableView, rows: Seq<Seq<Value>>) -> Option<TableError>
    decreases rows.len(),
{
    if rows.len() == 0 {
        None
    } else if t.append_fault(rows.first()).is_some() {
        t.append_fault(rows.first())
    } else {
        rows_fault(t.appended(rows.first()), rows.drop_first())
    }
}

/// A row is refused because it does not fit the schema or because the log
/// fails, for no other reason.
pub proof fn lemma_rows_fault_kind(t: TableView, rows: Seq<Seq<Value>>)
    ensures
        rows_fault(t, rows) matches Some(fault) ==> fault == TableError::SchemaMismatch || fault
            == TableError::DurabilityFailure,
    decreases rows.len(),
{
    if rows.len() > 0 && t.append_fault(rows.first()).is_none() {
        lemma_rows_fault_kind(t.appended(rows.first()), rows.drop_first());
    }
}

/// The rows that a vector of rows stands for.
pub open spec fn row_views(rows: Seq<MoonlinkRow>) -> Seq<Seq<Value>> {
    Seq::new(rows.len(), |i: int| rows[i]@)
}

/// Appending the first row and then the others is appending them all.
pub proof fn lemma_appended_all_front(
    batches: Seq<BatchView>,
    batch_size: nat,
    rows: Seq<Seq<Value>>,
)
    requires
        rows.len() > 0,
    ensures
        appended_all(batches, batch_size, rows) == appended_all(
            appended(batches, batch_size, rows.first()),
            batch_size,
            rows.drop_first(),
        ),
    decreases rows.len(),
{
    if rows.len() == 1 {
        assert(rows.drop_last() =~= Seq::<Seq<Value>>::empty());
        assert(rows.drop_first() =~= Seq::<Seq<Value>>::empty());
        assert(appended_all(batches, batch_size, rows.drop_last()) == batches);
    } else {
        let init = rows.drop_last();
        lemma_appended_all_front(batches, batch_size, init);
        assert(init.first() == rows.first());
        assert(init.drop_first() =~= rows.drop_first().drop_last());
        assert(rows.drop_first().last() == rows.last());
    }
}

/// Rows that are all accepted are all in the log and in the buffer, in
/// order; nothing else of the table changes, and its invariant holds.
pub proof fn lemma_rows_appended(t: TableView, rows: Seq<Seq<Value>>)
    requires
        t.wf(),
    ensures
        rows_appended(t, rows).wf(),
        rows_fault(t, rows).is_none() ==> {
            &&& rows_appended(t, rows).batches == appended_all(t.batches, t.batch_size, rows)
            &&& rows_appended(t, rows).files == t.files
            &&& rows_appended(t, rows).deletions == t.deletions
            &&& rows_appended(t, rows).synced_lsn == t.synced_lsn
            &&& rows_appended(t, rows).halted == t.halted
            &&& rows_appended(t, rows).wal.last_lsn == t.wal.last_lsn
            &&& rows_appended(t, rows).batch_size == t.batch_size
        },
    decreases rows.len(),
{
    if rows.len() > 0 {
        lemma_appended_keeps_wf(t, rows.first());
        if t.append_fault(rows.first()).is_none() {
            lemma_rows_appended(t.appended(rows.first()), rows.drop_first());
            lemma_appended_all_front(t.batches, t.batch_size, rows);
        }
    }
}

/// Appends, however many and whatever the batch size, then one commit and one
/// flush under the same LSN, then a snapshot at that LSN: where the log takes
/// every record, the buffer is empty afterwards, the data files hold the rows
/// that were flushed or buffered before and then the appended rows, each once
/// and in the order of their appending, and the snapshot lists every data
/// file.
pub proof fn lemma_append_commit_flush_snapshot(t: TableView, rows: Seq<Seq<Value>>, lsn: u64)
    requires
        t.wf(),
        rows_fault(t, rows).is_none(),
        rows_appended(t, rows).commit_fault(lsn).is_none(),
    ensures
        ({
            let done = rows_appended(t, rows).committed(lsn).flushed(lsn);
            &&& done.wf()
            &&& done.batches.len() == 0
            &&& stored_rows(done.files) == stored_rows(t.files) + buffered_rows(t.batches) + rows
            &&& visible_files(done.files, lsn) == done.files.len()
            &&& done.synced_lsn == Some(lsn)
            &&& done.deletions == tagged(t.deletions, lsn)
        }),
{
    let grown = rows_appended(t, rows);
    let ready = grown.committed(lsn);
    let done = ready.flushed(lsn);
    lemma_rows_appended(t, rows);
    lemma_committed_keeps_wf(grown, lsn);
    lemma_flushed_keeps_wf(ready, lsn);
    lemma_replayed_tags(t.batch_size, t.wal.records);
    assert forall|i: int| 0 <= i < t.batches.len() implies ((
    #[trigger] t.batches[i]).lsn matches Some(at) ==> at <= lsn) by {
        if t.batches[i].lsn is Some {
            let at = t.batches[i].lsn.unwrap();
            assert(has_marker(t.wal.records, at));
            let j = choose|j: int|
                0 <= j < t.wal.records.len() && #[trigger] t.wal.records[j]
                    == RecordView::Commit(at);
            assert(t.wal.records[j] matches RecordView::Commit(a) ==> a == at);
        }
    }
    lemma_append_commit_flush(t.batches, t.batch_size, rows, lsn);
    let made = files_of(ready.batches.take(flush_count(ready.batches, lsn) as int));
    assert(done.files == t.files + made);
    let lists = Seq::new(t.files.len(), |i: int| t.files[i].rows);
    let made_lists = Seq::new(made.len(), |i: int| made[i].rows);
    assert(Seq::new(done.files.len(), |i: int| done.files[i].rows) =~= lists + made_lists);
    lemma_flatten_concat(lists, made_lists);
    assert(stored_rows(done.files) =~= stored_rows(t.files) + (buffered_rows(t.batches) + rows));
    lemma_visible_files(done.files, lsn);
    if visible_files(done.files, lsn) < done.files.len() {
        let i = done.files.len() - 1;
        assert(done.files[i].lsn <= done.synced_lsn.unwrap());
    }
}

/// Appends the rows one after the other and stops at the first that is
/// refused.
pub fn append_rows(table: &mut MooncakeTable, rows: Vec<MoonlinkRow>) -> (done: Result<
    (),
    TableError,
>)
    requires
        old(table).wf(),
    ensures
        final(table).wf(),
        final(table)@ == rows_appended(old(table)@, row_views(rows@)),
        final(table).vectors() == old(table).vectors(),
        final(table).store() == old(table).store(),
        final(table).cache() == old(table).cache(),
        final(table).root() == old(table).root(),
        match done {
            Ok(_) => rows_fault(old(table)@, row_views(rows@)).is_none(),
            Err(fault) => rows_fault(old(table)@, row_views(rows@)) == Some(fault),
        },
{
    let ghost all = row_views(rows@);
    let n = rows.len();
    let mut rest = reversed(rows);
    let mut i: usize = 0;
    assert(all.skip(0) =~= all);
    while i < n
        invariant
            i <= n,
            n == all.len(),
            all == row_views(rows@),
            rest@.len() == n - i,
            forall|k: int| 0 <= k < n - i ==> (#[trigger] rest@[k])@ == all[n - 1 - k],
            table.wf(),
            table.vectors() == old(table).vectors(),
            table.store() == old(table).store(),
            table.cache() == old(table).cache(),
            table.root() == old(table).root(),
            rows_appended(table@, all.skip(i as int)) == rows_appended(old(table)@, all),
            rows_fault(table@, all.skip(i as int)) == rows_fault(old(table)@, all),
        decreases n - i,
    {
        assert(rest@[n - i - 1]@ == all[i as int]);
        let row = rest.pop().unwrap();
        proof {
            assert(all.skip(i as int).first() == all[i as int]);
            assert(all.skip(i as int).drop_first() =~= all.skip(i + 1));
        }
        match table.append(row) {
            Ok(_) => {},
            Err(fault) => {
                return Err(fault);
            },
        }
        i += 1;
    }
    Ok(())
}

/// Appends the rows, commits under `lsn`, flushes at `lsn` and takes the
/// snapshot at `lsn`; stops at the first step that fails. The snapshot fails
/// only where a container of a persisted deletion vector cannot be pinned; on
/// a table without deletions it never does, and refers to no deletion.
pub fn append_commit_flush_create_mooncake_snapshot_for_test(
    table: &mut MooncakeTable,
    rows: Vec<MoonlinkRow>,
    lsn: u64,
) -> (done: Result<Snapshot, TableError>)
    requires
        old(table).wf(),
    ensures
        final(table).wf(),
        final(table).root() == old(table).root(),
        done matches Err(fault) ==> (fault == TableError::StorageIOFailure <==> rows_fault(
            old(table)@,
            row_views(rows@),
        ).is_none() && rows_appended(old(table)@, row_views(rows@)).commit_fault(lsn).is_none()),
        ({
            let grown = rows_appended(old(table)@, row_views(rows@));
            let ready = grown.committed(lsn);
            let flushed = ready.flushed(lsn);
            let ids = vector_ids(final(table).vectors());
            if rows_fault(old(table)@, row_views(rows@)).is_some() {
                &&& done == Err::<Snapshot, TableError>(
                    rows_fault(old(table)@, row_views(rows@)).unwrap(),
                )
                &&& final(table)@ == grown
                &&& final(table).vectors() == old(table).vectors()
                &&& final(table).store() == old(table).store()
                &&& final(table).cache() == old(table).cache()
            } else if grown.commit_fault(lsn).is_some() {
                &&& done == Err::<Snapshot, TableError>(grown.commit_fault(lsn).unwrap())
                &&& final(table)@ == ready
                &&& final(table).vectors() == old(table).vectors()
                &&& final(table).store() == old(table).store()
                &&& final(table).cache() == old(table).cache()
            } else {
                &&& flushed.synced_lsn == Some(lsn)
                &&& flushed.deletions == tagged(old(table)@.deletions, lsn)
                &&& stored_rows(flushed.files) == stored_rows(old(table)@.files) + buffered_rows(
                    old(table)@.batches,
                ) + row_views(rows@)
                &&& old(table).store().len() <= final(table).store().len() <= old(
                    table,
                ).store().len() + 1
                &&& forall|id: int|
                    0 <= id < old(table).store().len() ==> final(table).store()[id] == old(
                        table,
                    ).store()[id]
                &&& done.is_ok() == !pin_fault(old(table).cache(), ids, final(table).store())
                &&& old(table)@.deletions.len() == 0 ==> done.is_ok()
                &&& final(table)@ == if done.is_ok() {
                    TableView { phase: TablePhase::Snapshotted, ..flushed }
                } else {
                    flushed
                }
                &&& done matches Err(fault) ==> {
                    &&& fault == TableError::StorageIOFailure
                    &&& forall|id: u64|
                        final(table).cache().pins(id) == old(table).cache().pins(id)
                }
                &&& done matches Ok(snapshot) ==> {
                    &&& final(table).cache() == pinned_all(
                        old(table).cache(),
                        ids,
                        final(table).store(),
                    )
                    &&& snapshot.lsn == lsn
                    &&& snapshot.data_files@.len() == flushed.files.len()
                    &&& forall|i: int|
                        0 <= i < flushed.files.len() ==> {
                            &&& (#[trigger] snapshot.data_files@[i]).number() == i
                            &&& snapshot.data_files@[i].path() == data_path(old(table).root(), i)
                            &&& snapshot.data_files@[i].rows() == flushed.files[i].rows.len()
                        }
                    &&& snapshot.position_deletes@ == Seq::<PositionDelete>::empty()
                    &&& snapshot.deletion_vectors@ == vector_refs(final(table).vectors())
                    &&& snapshot.puffin_cache_handles@.len() == ids.len()
                    &&& forall|k: int|
                        0 <= k < ids.len() ==> (
                        #[trigger] snapshot.puffin_cache_handles@[k]).file_id() == ids[k]
                            && snapshot.puffin_cache_handles@[k].path() == cache_path(
                            old(table).cache().root,
                            ids[k],
                        )
                    &&& old(table)@.deletions.len() == 0 ==> snapshot.deletion_vectors@.len() == 0
                        && snapshot.puffin_cache_handles@.len() == 0
                }
            }
        }),
{
    let ghost start = table@;
    let ghost all = row_views(rows@);
    proof {
        lemma_rows_appended(start, all);
        lemma_rows_fault_kind(start, all);
    }
    match append_rows(table, rows) {
        Err(fault) => {
            return Err(fault);
        },
        Ok(_) => {},
    }
    match table.commit(lsn) {
        Err(fault) => {
            return Err(fault);
        },
        Ok(_) => {},
    }
    proof {
        lemma_append_commit_flush_snapshot(start, all, lsn);
    }
    match table.flush_and_sync(lsn) {
        Err(fault) => {
            return Err(fault);
        },
        Ok(_) => {},
    }
    proof {
        let flushed = table@;
        lemma_nothing_pending(flushed.deletions, lsn);
        if start.deletions.len() == 0 {
            assert(flushed.deletions =~= Seq::<DeletionView>::empty());
            lemma_no_deletions_no_vectors(
                flushed.files,
                flushed.deletions,
                flushed.synced_lsn,
                table.vectors(),
                table.store(),
                table.vectors().len() as int,
            );
            assert(table.vectors().take(table.vectors().len() as int) =~= table.vectors());
        }
    }
    table.create_snapshot(lsn)
}

/// The state of a sample table that was just made: the table-format
/// configuration of [`sample_format`], table id 1, batches of two rows, an
/// empty log of default capacity, an empty buffer, no data file and no
/// deletion.
pub open spec fn sample_table(
    temp_dir: Seq<char>,
    root: Seq<char>,
    table_name: Seq<char>,
    identity: Identity,
    append_only: bool,
) -> TableView {
    TableView {
        table_id: 1,
        format: sample_format(root, table_name),
        temp_dir,
        schema: sample_columns(),
        batch_size: 2,
        append_only,
        identity,
        wal: WalView {
            records: Seq::<RecordView>::empty(),
            last_lsn: None,
            capacity: DEFAULT_WAL_CAPACITY as nat,
        },
        batches: Seq::<BatchView>::empty(),
        files: Seq::<FileView>::empty(),
        deletions: Seq::<DeletionView>::empty(),
        synced_lsn: None,
        halted: false,
        phase: TablePhase::Open,
    }
}

/// A table of sample rows named `table_name` with table id 1 that keeps its
/// files under `root` and its temporary files and its cache under `temp_dir`,
/// seals its batches at two rows and tells its rows apart by `identity`, on
/// an empty log, with an empty store and an empty cache. Its table-format
/// configuration is that of [`test_iceberg_table_config`] for `root` and
/// `table_name`; its table configuration is that of
/// [`test_mooncake_table_config`] for `temp_dir` but for the batch size and the
/// row identity.
pub fn test_table(temp_dir: &str, root: &str, table_name: &str, identity: IdentityProp) -> (table:
    MooncakeTable)
    requires
        config_valid(sample_columns(), 2, identity@, false),
    ensures
        table.wf(),
        table.name() == table_name@,
        table.root() == root@,
        table@ == sample_table(temp_dir@, root@, table_name@, identity@, false),
        table.vectors() == Seq::<Option<StoredVector>>::empty(),
        table.store() == Seq::<Seq<u8>>::empty(),
        table.cache() == (CacheView {
            pinned: Seq::<EntryView>::empty(),
            evictable: Seq::<EntryView>::empty(),
            root: temp_dir@,
        }),
{
    let iceberg_table_config = test_iceberg_table_config(root, table_name);
    let mut table_config = test_mooncake_table_config(temp_dir);
    table_config.batch_size = 2;
    table_config.row_identity = identity;
    let wal = Wal::new(DEFAULT_WAL_CAPACITY);
    let cache = ObjectStorageCache::new(temp_dir);
    assert(cache@.pinned =~= Seq::<EntryView>::empty());
    assert(cache@.evictable =~= Seq::<EntryView>::empty());
    let made = MooncakeTable::new(
        create_test_schema(),
        String::from_str(table_name),
        1,
        String::from_str(root),
        iceberg_table_config,
        table_config,
        wal,
        cache,
        PuffinStore::new(),
    );
    match made {
        Ok(table) => table,
        Err(_) => vstd::pervasive::unreached(),
    }
}

/// A table of sample rows as [`test_table`] makes it, but one that only grows
/// and has no row identity.
pub fn test_append_only_table(temp_dir: &str, root: &str, table_name: &str) -> (table:
    MooncakeTable)
    ensures
        table.wf(),
        table.name() == table_name@,
        table.root() == root@,
        table@ == sample_table(temp_dir@, root@, table_name@, Identity::NoIdentity, true),
        table.vectors() == Seq::<Option<StoredVector>>::empty(),
        table.store() == Seq::<Seq<u8>>::empty(),
        table.cache() == (CacheView {
            pinned: Seq::<EntryView>::empty(),
            evictable: Seq::<EntryView>::empty(),
            root: temp_dir@,
        }),
{
    let iceberg_table_config = test_iceberg_table_config(root, table_name);
    let mut table_config = test_mooncake_table_config(temp_dir);
    table_config.batch_size = 2;
    table_config.append_only = true;
    table_config.row_identity = IdentityProp::NoIdentity;
    let wal = Wal::new(DEFAULT_WAL_CAPACITY);
    let cache = ObjectStorageCache::new(temp_dir);
    assert(cache@.pinned =~= Seq::<EntryView>::empty());
    assert(cache@.evictable =~= Seq::<EntryView>::empty());
    let made = MooncakeTable::new(
        create_test_schema(),
        String::from_str(table_name),
        1,
        String::from_str(root),
        iceberg_table_config,
        table_config,
        wal,
        cache,
        PuffinStore::new(),
    );
    match made {
        Ok(table) => table,
        Err(_) => vstd::pervasive::unreached(),
    }
}

} // verus!
