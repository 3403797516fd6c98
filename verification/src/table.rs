//! The table: one buffer, one log, the data files flushed so far and the rows
//! deleted from them, bound together so that what is acknowledged is logged
//! before it is buffered, what is flushed leaves the log, and what is not yet
//! flushed can be rebuilt from the log.

use crate::buffer::{
    appended, committed, eligible, files_of, files_view, flush_count, lemma_flush_count,
    reachable_rows, replayed, BatchView, DataFile, FileView, MutableBuffer,
};
use crate::cache::{cache_path, CacheView, EntryView, ObjectStorageCache};
use crate::codec::{parse_log, records_view, RecordView, WalRecord};
use crate::config::{
    config_valid, validate_config, FormatView, IcebergTableConfig, MooncakeTableConfig,
};
use crate::deletion_vector::MarkOutcome;
use crate::position::PositionDelete;
use crate::puffin::PuffinStore;
use crate::wal::last_marker;
use crate::recovery::{
    has_marker, holds_delete, lemma_cut, lemma_no_deletes, lemma_pending_tags,
    lemma_valid_replay, lemma_valid_replay_prefix, valid_replay, lemma_flush_matches_truncation, lemma_pending_truncation,
    lemma_pending_unsettled, lemma_replayed_staged, lemma_settled_count, lemma_settled_split,
    pending_deletions, settled, settled_count,
};
use crate::row::{row_fits, ColumnType, Identity, IdentityProp, MoonlinkRow, Schema, Value};
use crate::sync::{
    deleted_offsets, deleted_up_to, lemma_same_deleted, sync_vectors, vector_ok, vectors_ok,
    visible, StoredVector,
};
use crate::snapshot::{
    base_of, collect_position_deletes, collect_refs, data_path, list_files, pin_all, pin_fault,
    pinned_all, position_deletes_at, release_all, released_all, vector_ids, vector_refs,
    visible_files, Snapshot,
};
use crate::wal::{
    cut, last_known, lemma_appended_wf, lemma_last_marker, lemma_last_marker_skip,
    lemma_truncated_wf, restorable, Wal, WalView,
};
use vstd::prelude::*;

verus! {

/// Why an operation on a table failed.
#[derive(Clone, Copy, Debug, PartialEq, Eq, Structural)]
pub enum TableError {
    /// The schema and the configuration cannot make a table.
    InvalidConfig,
    /// A row does not have the shape of the table's schema.
    SchemaMismatch,
    /// The log could not take a record; the table accepts nothing more until
    /// it is recovered.
    DurabilityFailure,
    /// A blob container could not be fetched or pinned.
    StorageIOFailure,
    /// A blob is not a deletion vector.
    BlobCorruption,
    /// A delete was asked of a table that only grows.
    AppendOnly,
}

/// Where a table stands in its cycle.
#[derive(Clone, Copy, Debug, PartialEq, Eq, Structural)]
pub enum TablePhase {
    /// Rows or deletes were accepted since the last commit, or nothing
    /// happened yet.
    Open,
    /// A commit was accepted and nothing since: what is committed waits for
    /// its flush.
    CommittedPendingFlush,
    /// A flush was done and nothing since.
    Flushed,
    /// A snapshot was taken and nothing since.
    Snapshotted,
}

/// One deleted row as the contracts see it: its position, and the LSN of the
/// commit that made the delete visible (none before that commit).
pub struct DeletionView {
    pub position: PositionDelete,
    pub lsn: Option<u64>,
}

/// Whether a position names a row of one of the files.
pub open spec fn in_range(files: Seq<FileView>, position: PositionDelete) -> bool {
    &&& position.data_file_number < files.len()
    &&& position.data_file_row_number < reachable_rows(files[position.data_file_number as int])
}

/// Whether a position is among the deletions.
pub open spec fn is_marked(deletions: Seq<DeletionView>, position: PositionDelete) -> bool {
    exists|i: int| 0 <= i < deletions.len() && (#[trigger] deletions[i]).position == position
}

/// Whether two rows have the same key: each has a value at every key column,
/// and the values are the same.
pub open spec fn same_key(keys: Seq<usize>, a: Seq<Value>, b: Seq<Value>) -> bool {
    forall|i: int|
        0 <= i < keys.len() ==> (#[trigger] keys[i]) < a.len() && keys[i] < b.len() && a[keys[i] as int]
            == b[keys[i] as int]
}

/// Whether one position stands before another: in an earlier file, or earlier
/// in the same file.
pub open spec fn stands_before(a: PositionDelete, b: PositionDelete) -> bool {
    a.data_file_number < b.data_file_number || (a.data_file_number == b.data_file_number
        && a.data_file_row_number < b.data_file_row_number)
}

/// Whether a position names a row of a data file that has the key of `row`
/// and is not deleted.
pub open spec fn holds_key(
    files: Seq<FileView>,
    deletions: Seq<DeletionView>,
    keys: Seq<usize>,
    row: Seq<Value>,
    position: PositionDelete,
) -> bool {
    &&& in_range(files, position)
    &&& same_key(
        keys,
        files[position.data_file_number as int].rows[position.data_file_row_number as int],
        row,
    )
    &&& !is_marked(deletions, position)
}

/// A deletion after a commit under `lsn`: visible from `lsn` on, unless an
/// earlier commit made it visible already.
pub open spec fn tag(deletion: DeletionView, lsn: u64) -> DeletionView {
    DeletionView {
        position: deletion.position,
        lsn: if deletion.lsn is None {
            Some(lsn)
        } else {
            deletion.lsn
        },
    }
}

/// The deletions after a commit under `lsn`.
pub open spec fn tagged(deletions: Seq<DeletionView>, lsn: u64) -> Seq<DeletionView> {
    Seq::new(deletions.len(), |i: int| tag(deletions[i], lsn))
}

/// The LSN up to which the table is flushed after a flush at `lsn`: the
/// smaller of `lsn` and the last commit's LSN, unless the table was flushed
/// further already.
pub open spec fn flushed_up_to(last: Option<u64>, synced: Option<u64>, lsn: u64) -> Option<u64> {
    match last {
        None => synced,
        Some(last) => {
            let reach = if lsn < last {
                lsn
            } else {
                last
            };
            match synced {
                Some(before) => if before >= reach {
                    Some(before)
                } else {
                    Some(reach)
                },
                None => Some(reach),
            }
        },
    }
}

/// The state of a table.
pub struct TableView {
    /// The number by which the table is known.
    pub table_id: u32,
    /// How the table is known to the table format.
    pub format: FormatView,
    /// The directory of temporary files.
    pub temp_dir: Seq<char>,
    /// The columns of the table.
    pub schema: Seq<ColumnType>,
    /// The number of rows at which a batch is sealed.
    pub batch_size: nat,
    /// Whether the table only grows: no row of it can be deleted.
    pub append_only: bool,
    /// How a row is told apart from the others.
    pub identity: Identity,
    /// The log.
    pub wal: WalView,
    /// The batches of the buffer.
    pub batches: Seq<BatchView>,
    /// The data files, in the order of their flushing.
    pub files: Seq<FileView>,
    /// The deleted rows, in the order of their deletion.
    pub deletions: Seq<DeletionView>,
    /// The LSN up to which the table is flushed.
    pub synced_lsn: Option<u64>,
    /// Whether the log has failed, so that the table accepts nothing more.
    pub halted: bool,
    /// Where the table stands in its cycle.
    pub phase: TablePhase,
}

impl TableView {
    /// The invariant of a table. The buffer holds what a replay of the log
    /// leaves in an empty buffer; the log holds no commit at or below the LSN
    /// up to which the table is flushed; the data files stand in the order of
    /// their commits, none committed above that LSN; every deletion names a
    /// row of a data file, once, and became visible no earlier than its file;
    /// the deletions that did not become visible at or below that LSN are
    /// those that a replay of the log leaves; and the last commit is that of
    /// the last marker in the log, or, where the log holds none, the one up to
    /// which the table is flushed.
    pub open spec fn wf(self) -> bool {
        &&& self.schema.len() > 0
        &&& self.batch_size >= 1
        &&& self.wal.wf()
        &&& self.batches == replayed(self.batch_size, self.wal.records)
        &&& forall|i: int|
            0 <= i < self.wal.records.len() ==> ((
            #[trigger] self.wal.records[i]) matches RecordView::Commit(at) ==> (
            self.synced_lsn matches Some(synced) ==> synced < at))
        &&& self.synced_lsn matches Some(synced) ==> (self.wal.last_lsn matches Some(last)
            && synced <= last)
        &&& self.files.len() > 0 ==> self.synced_lsn is Some
        &&& forall|i: int|
            0 <= i < self.files.len() ==> (#[trigger] self.files[i]).lsn
                <= self.synced_lsn.unwrap()
        &&& forall|i: int, j: int|
            0 <= i < j < self.files.len() ==> (#[trigger] self.files[i]).lsn <= (
            #[trigger] self.files[j]).lsn
        &&& forall|i: int|
            0 <= i < self.deletions.len() ==> {
                &&& in_range(self.files, (#[trigger] self.deletions[i]).position)
                &&& self.deletions[i].lsn matches Some(at) ==> {
                    &&& self.wal.last_lsn matches Some(last) && at <= last
                    &&& self.files[self.deletions[i].position.data_file_number as int].lsn <= at
                }
            }
        &&& forall|i: int, j: int|
            0 <= i < j < self.deletions.len() ==> (#[trigger] self.deletions[i]).position != (
            #[trigger] self.deletions[j]).position
        &&& self.deletions.skip(settled_count(self.deletions, self.synced_lsn) as int)
            == pending_deletions(self.wal.records)
        &&& self.wal.last_lsn == last_known(self.wal.records, self.synced_lsn)
    }

    /// Why appending `row` fails, if it does.
    pub open spec fn append_fault(self, row: Seq<Value>) -> Option<TableError> {
        if !row_fits(self.schema, row) {
            Some(TableError::SchemaMismatch)
        } else if self.halted || self.wal.fault(RecordView::Append(row)).is_some() {
            Some(TableError::DurabilityFailure)
        } else {
            None
        }
    }

    /// The table after `row` is offered: logged and buffered where it is
    /// accepted; untouched where the row does not fit the schema; halted, and
    /// otherwise untouched, where the log refuses the row.
    pub open spec fn appended(self, row: Seq<Value>) -> TableView {
        if !row_fits(self.schema, row) || self.halted {
            self
        } else if self.wal.fault(RecordView::Append(row)).is_some() {
            TableView { halted: true, ..self }
        } else {
            TableView {
                wal: self.wal.appended(RecordView::Append(row)),
                batches: appended(self.batches, self.batch_size, row),
                phase: TablePhase::Open,
                ..self
            }
        }
    }

    /// Why a commit under `lsn` fails, if it does.
    pub open spec fn commit_fault(self, lsn: u64) -> Option<TableError> {
        if self.halted || self.wal.fault(RecordView::Commit(lsn)).is_some() {
            Some(TableError::DurabilityFailure)
        } else {
            None
        }
    }

    /// The table after a commit under `lsn` is asked for: the marker logged,
    /// then every batch sealed and, like every deletion, visible from `lsn`
    /// on unless it was before; halted, and otherwise untouched, where the log
    /// refuses the marker.
    pub open spec fn committed(self, lsn: u64) -> TableView {
        if self.halted {
            self
        } else if self.wal.fault(RecordView::Commit(lsn)).is_some() {
            TableView { halted: true, ..self }
        } else {
            TableView {
                wal: self.wal.appended(RecordView::Commit(lsn)),
                batches: committed(self.batches, lsn),
                deletions: tagged(self.deletions, lsn),
                phase: TablePhase::CommittedPendingFlush,
                ..self
            }
        }
    }

    /// What deleting the row at `position` reports on a table that is not
    /// halted.
    pub open spec fn delete_outcome(self, position: PositionDelete) -> MarkOutcome {
        if !in_range(self.files, position) {
            MarkOutcome::DeletionOutOfRange
        } else if is_marked(self.deletions, position) {
            MarkOutcome::DuplicateDelete
        } else {
            MarkOutcome::Marked
        }
    }

    /// Why deleting the row at `position` fails, if it does.
    pub open spec fn delete_fault(self, position: PositionDelete) -> Option<TableError> {
        if self.append_only {
            Some(TableError::AppendOnly)
        } else if self.halted || (self.delete_outcome(position) == MarkOutcome::Marked && self.wal.fault(
            RecordView::Delete(position),
        ).is_some()) {
            Some(TableError::DurabilityFailure)
        } else {
            None
        }
    }

    /// The table after the delete of the row at `position` is asked for: the
    /// delete logged and recorded where the position names a row not yet
    /// deleted; untouched where it names none or one deleted already; halted,
    /// and otherwise untouched, where the log refuses the delete.
    pub open spec fn deleted(self, position: PositionDelete) -> TableView {
        if self.append_only || self.halted || self.delete_outcome(position)
            != MarkOutcome::Marked {
            self
        } else if self.wal.fault(RecordView::Delete(position)).is_some() {
            TableView { halted: true, ..self }
        } else {
            TableView {
                wal: self.wal.appended(RecordView::Delete(position)),
                deletions: self.deletions.push(DeletionView { position, lsn: None }),
                phase: TablePhase::Open,
                ..self
            }
        }
    }

    /// The table after a flush at `lsn`: the leading batches committed at or
    /// below `lsn` have become data files, one each, behind the files there
    /// were, and the log has lost the records up to the last commit marker at
    /// or below `lsn`. A halted table stays as it is.
    pub open spec fn flushed(self, lsn: u64) -> TableView {
        if self.halted {
            self
        } else {
            TableView {
                files: self.files + files_of(
                    self.batches.take(flush_count(self.batches, lsn) as int),
                ),
                batches: self.batches.skip(flush_count(self.batches, lsn) as int),
                wal: self.wal.truncated(lsn),
                synced_lsn: flushed_up_to(self.wal.last_lsn, self.synced_lsn, lsn),
                phase: TablePhase::Flushed,
                ..self
            }
        }
    }

    /// The deletions that became visible at or below the LSN up to which the
    /// table is flushed: they are in the persisted deletion vectors.
    pub open spec fn settled_deletions(self) -> Seq<DeletionView> {
        self.deletions.take(settled_count(self.deletions, self.synced_lsn) as int)
    }

    /// Whether the table can be recovered from the durable image of a log:
    /// the image reads as records that can make up a log truncated at the LSN
    /// up to which the table is flushed, and the deletes among them can be
    /// replayed behind the settled deletions.
    pub open spec fn recoverable(self, image: Seq<u8>) -> bool {
        parse_log(image) matches Ok(records) && restorable(
            records,
            self.synced_lsn,
            self.wal.capacity,
        ) && valid_replay(self.files, self.settled_deletions(), records)
    }

    /// The table recovered from the records of a log: the data files and the
    /// settled deletions as they were; the log made of the records; in the
    /// buffer and behind the settled deletions what a replay of the records
    /// leaves; not halted, and open.
    pub open spec fn recovered(self, records: Seq<RecordView>) -> TableView {
        TableView {
            wal: WalView {
                records,
                last_lsn: last_known(records, self.synced_lsn),
                capacity: self.wal.capacity,
            },
            batches: replayed(self.batch_size, records),
            deletions: self.settled_deletions() + pending_deletions(records),
            halted: false,
            phase: TablePhase::Open,
            ..self
        }
    }
}

/// Recovery keeps the invariant, and what is deleted at the LSN up to which
/// the table is flushed.
pub proof fn lemma_recovered_keeps_wf(t: TableView, records: Seq<RecordView>)
    requires
        t.wf(),
        restorable(records, t.synced_lsn, t.wal.capacity),
        valid_replay(t.files, t.settled_deletions(), records),
    ensures
        t.recovered(records).wf(),
        forall|file: int|
            deleted_up_to(t.recovered(records).deletions, file, t.synced_lsn) == deleted_up_to(
                t.deletions,
                file,
                t.synced_lsn,
            ),
{
    let next = t.recovered(records);
    let n = settled_count(t.deletions, t.synced_lsn) as int;
    let base = t.settled_deletions();
    let pending = pending_deletions(records);
    lemma_settled_count(t.deletions, t.synced_lsn);
    lemma_last_marker(records);
    lemma_pending_tags(records);
    lemma_pending_unsettled(records, t.synced_lsn);
    lemma_pending_unsettled(t.wal.records, t.synced_lsn);
    assert forall|i: int| 0 <= i < base.len() implies in_range(
        t.files,
        (#[trigger] base[i]).position,
    ) by {
        assert(base[i] == t.deletions[i]);
    }
    assert forall|i: int, j: int| 0 <= i < j < base.len() implies (#[trigger] base[i]).position
        != (#[trigger] base[j]).position by {
        assert(t.deletions[i].position != t.deletions[j].position);
    }
    lemma_valid_replay(t.files, base, records);
    assert forall|i: int| 0 <= i < next.deletions.len() implies (settled(
        #[trigger] next.deletions[i],
        t.synced_lsn,
    ) <==> i < n) by {
        if i < n {
            assert(next.deletions[i] == t.deletions[i]);
        } else {
            assert(next.deletions[i] == pending[i - n]);
        }
    }
    lemma_settled_split(next.deletions, t.synced_lsn, n);
    assert(next.deletions.skip(n) =~= pending);
    assert forall|i: int| 0 <= i < next.deletions.len() implies {
        &&& in_range(next.files, (#[trigger] next.deletions[i]).position)
        &&& next.deletions[i].lsn matches Some(at) ==> {
            &&& next.wal.last_lsn matches Some(last) && at <= last
            &&& next.files[next.deletions[i].position.data_file_number as int].lsn <= at
        }
    } by {
        assert(in_range(t.files, (base + pending)[i].position));
        let file = next.deletions[i].position.data_file_number as int;
        if i < n {
            assert(next.deletions[i] == t.deletions[i]);
            assert(settled(t.deletions[i], t.synced_lsn));
        } else if next.deletions[i].lsn is Some {
            let at = next.deletions[i].lsn.unwrap();
            assert(next.deletions[i] == pending[i - n]);
            assert(has_marker(records, at));
            let j = choose|j: int|
                0 <= j < records.len() && #[trigger] records[j] == RecordView::Commit(at);
            assert(records[j] matches RecordView::Commit(a) ==> a == at);
            lemma_marker_below_last(records, j);
            assert(t.files[file].lsn <= t.synced_lsn.unwrap());
        }
    }
    if t.synced_lsn is Some && last_marker(records) is Some {
        let last = last_marker(records).unwrap();
        let j = choose|j: int|
            0 <= j < records.len() && #[trigger] records[j] == RecordView::Commit(last);
        assert(records[j] matches RecordView::Commit(a) ==> a == last);
    }
    assert forall|i: int| 0 <= i < records.len() implies ((
    #[trigger] records[i]) matches RecordView::Commit(at) ==> next.wal.last_lsn matches Some(last)
        && at <= last) by {
        if records[i] is Commit {
            lemma_marker_below_last(records, i);
        }
    }
    assert forall|file: int|
        deleted_up_to(next.deletions, file, t.synced_lsn) == deleted_up_to(
            t.deletions,
            file,
            t.synced_lsn,
        ) by {
        if t.synced_lsn is Some {
            let synced = t.synced_lsn.unwrap();
            assert forall|i: int|
                0 <= i < next.deletions.len() && visible(
                    #[trigger] next.deletions[i],
                    file,
                    synced,
                ) implies exists|j: int|
                0 <= j < t.deletions.len() && visible(#[trigger] t.deletions[j], file, synced)
                    && t.deletions[j].position == next.deletions[i].position by {
                assert(settled(next.deletions[i], t.synced_lsn));
                assert(next.deletions[i] == t.deletions[i]);
            }
            assert forall|j: int|
                0 <= j < t.deletions.len() && visible(
                    #[trigger] t.deletions[j],
                    file,
                    synced,
                ) implies exists|i: int|
                0 <= i < next.deletions.len() && visible(
                    #[trigger] next.deletions[i],
                    file,
                    synced,
                ) && next.deletions[i].position == t.deletions[j].position by {
                assert(settled(t.deletions[j], t.synced_lsn));
                if j >= n {
                    assert(t.deletions.skip(n)[j - n] == t.deletions[j]);
                }
                assert(next.deletions[j] == t.deletions[j]);
            }
            lemma_same_deleted(next.deletions, t.deletions, file, synced);
        }
    }
}

/// No commit marker of ordered records lies above the last one.
pub proof fn lemma_marker_below_last(records: Seq<RecordView>, i: int)
    requires
        crate::wal::ordered(records),
        0 <= i < records.len(),
        records[i] is Commit,
    ensures
        last_marker(records) matches Some(last) && records[i]->Commit_0 <= last,
    decreases records.len(),
{
    if records.last() is Commit {
        if i < records.len() - 1 {
            assert(records[i] matches RecordView::Commit(a) ==> (
            records[records.len() - 1] matches RecordView::Commit(b) ==> a < b));
        }
    } else {
        let init = records.drop_last();
        assert(init[i] == records[i]);
        assert forall|a: int, b: int| 0 <= a < b < init.len() implies ((
        #[trigger] init[a]) matches RecordView::Commit(x) ==> ((
        #[trigger] init[b]) matches RecordView::Commit(y) ==> x < y)) by {
            assert(init[a] == records[a]);
            assert(init[b] == records[b]);
        }
        lemma_marker_below_last(init, i);
    }
}

/// Offering a row keeps the invariant.
pub proof fn lemma_appended_keeps_wf(t: TableView, row: Seq<Value>)
    requires
        t.wf(),
    ensures
        t.appended(row).wf(),
{
    let next = t.appended(row);
    let record = RecordView::Append(row);
    if row_fits(t.schema, row) && !t.halted && t.wal.fault(record).is_none() {
        lemma_appended_wf(t.wal, record);
        assert(next.wal.records.drop_last() =~= t.wal.records);
        assert(next.wal.records.last() == record);
        assert forall|i: int| 0 <= i < next.wal.records.len() implies ((
        #[trigger] next.wal.records[i]) matches RecordView::Commit(at) ==> (
        next.synced_lsn matches Some(synced) ==> synced < at)) by {
            if i < t.wal.records.len() {
                assert(next.wal.records[i] == t.wal.records[i]);
            }
        }
    }
}

/// Asking for a commit keeps the invariant.
pub proof fn lemma_committed_keeps_wf(t: TableView, lsn: u64)
    requires
        t.wf(),
    ensures
        t.committed(lsn).wf(),
{
    let next = t.committed(lsn);
    let record = RecordView::Commit(lsn);
    if !t.halted && t.wal.fault(record).is_none() {
        lemma_appended_wf(t.wal, record);
        assert(next.wal.records.drop_last() =~= t.wal.records);
        assert(next.wal.records.last() == record);
        let n = settled_count(t.deletions, t.synced_lsn) as int;
        lemma_settled_count(t.deletions, t.synced_lsn);
        lemma_pending_unsettled(t.wal.records, t.synced_lsn);
        assert forall|i: int| n <= i < t.deletions.len() implies !settled(
            #[trigger] t.deletions[i],
            t.synced_lsn,
        ) by {
            assert(t.deletions.skip(n)[i - n] == t.deletions[i]);
        }
        assert forall|i: int| 0 <= i < next.deletions.len() implies (settled(
            #[trigger] next.deletions[i],
            t.synced_lsn,
        ) <==> i < n) by {
            assert(next.deletions[i] == tag(t.deletions[i], lsn));
        }
        lemma_settled_split(next.deletions, t.synced_lsn, n);
        assert(next.deletions.skip(n) =~= tagged(t.deletions.skip(n), lsn));
        assert forall|i: int| 0 <= i < next.wal.records.len() implies ((
        #[trigger] next.wal.records[i]) matches RecordView::Commit(at) ==> (
        next.synced_lsn matches Some(synced) ==> synced < at)) by {
            if i < t.wal.records.len() {
                assert(next.wal.records[i] == t.wal.records[i]);
            }
        }
        assert forall|i: int| 0 <= i < next.deletions.len() implies {
            &&& in_range(next.files, (#[trigger] next.deletions[i]).position)
            &&& next.deletions[i].lsn matches Some(at) ==> {
                &&& next.wal.last_lsn matches Some(last) && at <= last
                &&& next.files[next.deletions[i].position.data_file_number as int].lsn <= at
            }
        } by {
            assert(next.deletions[i] == tag(t.deletions[i], lsn));
            assert(in_range(t.files, t.deletions[i].position));
            let file = t.deletions[i].position.data_file_number as int;
            assert(t.files[file].lsn <= t.synced_lsn.unwrap());
        }
        assert forall|i: int, j: int| 0 <= i < j < next.deletions.len() implies (
        #[trigger] next.deletions[i]).position != (#[trigger] next.deletions[j]).position by {
            assert(t.deletions[i].position != t.deletions[j].position);
        }
    }
}

/// Asking for a delete keeps the invariant.
pub proof fn lemma_deleted_keeps_wf(t: TableView, position: PositionDelete)
    requires
        t.wf(),
    ensures
        t.deleted(position).wf(),
{
    let next = t.deleted(position);
    let record = RecordView::Delete(position);
    if !t.append_only && !t.halted && t.delete_outcome(position) == MarkOutcome::Marked
        && t.wal.fault(record).is_none() {
        lemma_appended_wf(t.wal, record);
        assert(next.wal.records.drop_last() =~= t.wal.records);
        assert(next.wal.records.last() == record);
        let n = settled_count(t.deletions, t.synced_lsn) as int;
        lemma_settled_count(t.deletions, t.synced_lsn);
        lemma_pending_unsettled(t.wal.records, t.synced_lsn);
        assert forall|i: int| n <= i < t.deletions.len() implies !settled(
            #[trigger] t.deletions[i],
            t.synced_lsn,
        ) by {
            assert(t.deletions.skip(n)[i - n] == t.deletions[i]);
        }
        assert forall|i: int| 0 <= i < next.deletions.len() implies (settled(
            #[trigger] next.deletions[i],
            t.synced_lsn,
        ) <==> i < n) by {
            if i < t.deletions.len() {
                assert(next.deletions[i] == t.deletions[i]);
            }
        }
        lemma_settled_split(next.deletions, t.synced_lsn, n);
        assert(next.deletions.skip(n) =~= t.deletions.skip(n).push(
            DeletionView { position, lsn: None },
        ));
        assert forall|i: int| 0 <= i < next.wal.records.len() implies ((
        #[trigger] next.wal.records[i]) matches RecordView::Commit(at) ==> (
        next.synced_lsn matches Some(synced) ==> synced < at)) by {
            if i < t.wal.records.len() {
                assert(next.wal.records[i] == t.wal.records[i]);
            }
        }
        assert forall|i: int| 0 <= i < next.deletions.len() implies {
            &&& in_range(next.files, (#[trigger] next.deletions[i]).position)
            &&& next.deletions[i].lsn matches Some(at) ==> {
                &&& next.wal.last_lsn matches Some(last) && at <= last
                &&& next.files[next.deletions[i].position.data_file_number as int].lsn <= at
            }
        } by {
            if i < t.deletions.len() {
                assert(next.deletions[i] == t.deletions[i]);
            }
        }
        assert forall|i: int, j: int| 0 <= i < j < next.deletions.len() implies (
        #[trigger] next.deletions[i]).position != (#[trigger] next.deletions[j]).position by {
            if j < t.deletions.len() {
                assert(t.deletions[i].position != t.deletions[j].position);
            } else {
                assert(t.deletions[i].position != position);
            }
        }
    }
}

/// A flush keeps the invariant.
pub proof fn lemma_flushed_keeps_wf(t: TableView, lsn: u64)
    requires
        t.wf(),
    ensures
        t.flushed(lsn).wf(),
{
    let next = t.flushed(lsn);
    if !t.halted {
        let n = flush_count(t.batches, lsn) as int;
        let k = cut(t.wal.records, lsn);
        lemma_truncated_wf(t.wal, lsn);
        lemma_flush_matches_truncation(t.batch_size, t.wal.records, lsn);
        lemma_flush_count(t.batches, lsn);
        lemma_replayed_staged(t.batch_size, t.wal.records);
        lemma_cut(t.wal.records, lsn);
        let m = settled_count(t.deletions, t.synced_lsn) as int;
        lemma_settled_count(t.deletions, t.synced_lsn);
        lemma_pending_truncation(t.wal.records, lsn);
        lemma_pending_unsettled(t.wal.records, t.synced_lsn);
        let head = pending_deletions(t.wal.records.take(k));
        let tail = pending_deletions(t.wal.records.skip(k));
        assert(t.deletions.skip(m) == head + tail);
        assert(t.deletions.len() == m + head.len() + tail.len());
        assert forall|i: int| 0 <= i < t.deletions.len() implies (settled(
            #[trigger] t.deletions[i],
            next.synced_lsn,
        ) <==> i < m + head.len()) by {
            if i >= m {
                assert(t.deletions.skip(m)[i - m] == t.deletions[i]);
                if i < m + head.len() {
                    assert((head + tail)[i - m] == head[i - m]);
                    let at = head[i - m].lsn.unwrap();
                    assert(has_marker(t.wal.records, at));
                    let j = choose|j: int|
                        0 <= j < t.wal.records.len() && #[trigger] t.wal.records[j]
                            == RecordView::Commit(at);
                    assert(t.wal.records[j] matches RecordView::Commit(a) ==> a == at);
                } else {
                    assert((head + tail)[i - m] == tail[i - m - head.len()]);
                    if tail[i - m - head.len()].lsn is Some {
                        let at = tail[i - m - head.len()].lsn.unwrap();
                        assert(has_marker(t.wal.records, at));
                        let j = choose|j: int|
                            0 <= j < t.wal.records.len() && #[trigger] t.wal.records[j]
                                == RecordView::Commit(at);
                        assert(t.wal.records[j] matches RecordView::Commit(a) ==> a == at);
                    }
                }
            }
        }
        lemma_settled_split(t.deletions, next.synced_lsn, m + head.len());
        lemma_last_marker_skip(t.wal.records, k);
        lemma_last_marker(t.wal.records);
        if exists|j: int| k <= j < t.wal.records.len() && (#[trigger] t.wal.records[j]) is Commit {
        } else if last_marker(t.wal.records) is Some {
            let last = last_marker(t.wal.records).unwrap();
            let j = choose|j: int|
                0 <= j < t.wal.records.len() && #[trigger] t.wal.records[j] == RecordView::Commit(
                    last,
                );
            assert(t.wal.records[j] is Commit);
            assert(j < k);
            if j < k - 1 {
                assert(t.wal.records[j] matches RecordView::Commit(a) ==> (
                t.wal.records[k - 1] matches RecordView::Commit(b) ==> a < b));
            }
            assert(t.wal.records[j] matches RecordView::Commit(a) ==> a == last);
        }
        assert(t.deletions.skip(m + head.len()) =~= t.deletions.skip(m).skip(head.len() as int));
        assert((head + tail).skip(head.len() as int) =~= tail);
        assert forall|i: int| 0 <= i < next.wal.records.len() implies ((
        #[trigger] next.wal.records[i]) matches RecordView::Commit(at) ==> (
        next.synced_lsn matches Some(synced) ==> synced < at)) by {
            assert(next.wal.records[i] == t.wal.records[i + k]);
        }
        let made = files_of(t.batches.take(n));
        assert forall|i: int| 0 <= i < made.len() implies {
            &&& t.wal.last_lsn matches Some(last) && (#[trigger] made[i]).lsn <= last
            &&& made[i].lsn <= lsn
            &&& t.synced_lsn matches Some(synced) ==> synced < made[i].lsn
        } by {
            assert(t.batches.take(n)[i] == t.batches[i]);
            assert(eligible(t.batches[i], lsn));
            let at = t.batches[i].lsn.unwrap();
            assert(has_marker(t.wal.records, at));
            let j = choose|j: int|
                0 <= j < t.wal.records.len() && #[trigger] t.wal.records[j] == RecordView::Commit(
                    at,
                );
            assert(t.wal.records[j] matches RecordView::Commit(a) ==> a == at);
        }
        assert forall|i: int| 0 <= i < next.files.len() implies (#[trigger] next.files[i]).lsn
            <= next.synced_lsn.unwrap() by {
            if i < t.files.len() {
                assert(next.files[i] == t.files[i]);
            } else {
                assert(next.files[i] == made[i - t.files.len()]);
            }
        }
        if made.len() > 0 {
            assert(t.wal.last_lsn is Some && made[0].lsn <= lsn);
        }
        assert forall|i: int, j: int| 0 <= i < j < next.files.len() implies (
        #[trigger] next.files[i]).lsn <= (#[trigger] next.files[j]).lsn by {
            if j < t.files.len() {
                assert(next.files[i] == t.files[i]);
                assert(next.files[j] == t.files[j]);
            } else if i < t.files.len() {
                assert(next.files[i] == t.files[i]);
                assert(next.files[j] == made[j - t.files.len()]);
            } else {
                let a = i - t.files.len();
                let b = j - t.files.len();
                assert(next.files[i] == made[a]);
                assert(next.files[j] == made[b]);
                assert(t.batches.take(n)[a] == t.batches[a]);
                assert(t.batches.take(n)[b] == t.batches[b]);
                assert(eligible(t.batches[a], lsn));
                assert(eligible(t.batches[b], lsn));
            }
        }
        assert forall|i: int| 0 <= i < next.deletions.len() implies {
            &&& in_range(next.files, (#[trigger] next.deletions[i]).position)
            &&& next.deletions[i].lsn matches Some(at) ==> {
                &&& next.wal.last_lsn matches Some(last) && at <= last
                &&& next.files[next.deletions[i].position.data_file_number as int].lsn <= at
            }
        } by {
            assert(in_range(t.files, t.deletions[i].position));
            let file = t.deletions[i].position.data_file_number as int;
            assert(next.files[file] == t.files[file]);
        }
    }
}

/// A commit changes nothing in what is deleted at the LSN up to which the
/// table is flushed, nor does a delete: both only add what becomes visible
/// later.
pub proof fn lemma_later_deletes_unseen(t: TableView, next: TableView, file: int)
    requires
        t.wf(),
        next.synced_lsn == t.synced_lsn,
        (exists|lsn: u64| next == #[trigger] t.committed(lsn)) || (exists|position: PositionDelete|
            next == #[trigger] t.deleted(position)),
    ensures
        deleted_up_to(next.deletions, file, next.synced_lsn) == deleted_up_to(
            t.deletions,
            file,
            t.synced_lsn,
        ),
{
    if t.synced_lsn is Some {
        let synced = t.synced_lsn.unwrap();
        assert forall|i: int|
            0 <= i < next.deletions.len() && visible(
                #[trigger] next.deletions[i],
                file,
                synced,
            ) implies exists|j: int|
            0 <= j < t.deletions.len() && visible(#[trigger] t.deletions[j], file, synced)
                && t.deletions[j].position == next.deletions[i].position by {
            if i < t.deletions.len() {
                assert(next.deletions[i].position == t.deletions[i].position);
                assert(visible(t.deletions[i], file, synced));
            }
        }
        assert forall|j: int|
            0 <= j < t.deletions.len() && visible(
                #[trigger] t.deletions[j],
                file,
                synced,
            ) implies exists|i: int|
            0 <= i < next.deletions.len() && visible(#[trigger] next.deletions[i], file, synced)
                && next.deletions[i].position == t.deletions[j].position by {
            assert(next.deletions[j] == t.deletions[j]);
        }
        lemma_same_deleted(next.deletions, t.deletions, file, synced);
    }
}

/// Whether `found` is what locating `row` finds: on a table without row
/// identity, nothing; else the position that stands before every other
/// position of a row that has the key of `row` and is not deleted, or nothing
/// where there is no such row.
pub open spec fn is_located(t: TableView, row: Seq<Value>, found: Option<PositionDelete>) -> bool {
    match (t.identity, found) {
        (Identity::NoIdentity, found) => found.is_none(),
        (Identity::Keys(keys), Some(position)) => {
            &&& holds_key(t.files, t.deletions, keys, row, position)
            &&& forall|other: PositionDelete|
                holds_key(t.files, t.deletions, keys, row, other) ==> !stands_before(
                    other,
                    position,
                )
        },
        (Identity::Keys(keys), None) => forall|other: PositionDelete|
            !holds_key(t.files, t.deletions, keys, row, other),
    }
}

/// One deleted row.
#[derive(Clone, Copy, Debug)]
pub struct Deletion {
    pub position: PositionDelete,
    pub lsn: Option<u64>,
}

impl View for Deletion {
    type V = DeletionView;

    open spec fn view(&self) -> DeletionView {
        DeletionView { position: self.position, lsn: self.lsn }
    }
}

/// The deletions that a vector of deletions stands for.
pub open spec fn deletions_view(deletions: Seq<Deletion>) -> Seq<DeletionView> {
    Seq::new(deletions.len(), |i: int| deletions[i]@)
}

fn same_lsn(a: Option<u64>, b: Option<u64>) -> (same: bool)
    ensures
        same == (a == b),
{
    match (a, b) {
        (Some(x), Some(y)) => x == y,
        (None, None) => true,
        _ => false,
    }
}

fn has_delete(records: &Vec<WalRecord>) -> (found: bool)
    ensures
        found == holds_delete(crate::codec::records_view(records@)),
{
    let mut i: usize = 0;
    while i < records.len()
        invariant
            i <= records.len(),
            forall|k: int| 0 <= k < i ==> !((#[trigger] records@[k])@ is Delete),
        decreases records.len() - i,
    {
        match &records[i] {
            WalRecord::Delete(_) => {
                assert(crate::codec::records_view(records@)[i as int] is Delete);
                return true;
            },
            _ => {},
        }
        i += 1;
    }
    assert(!holds_delete(crate::codec::records_view(records@))) by {
        if holds_delete(crate::codec::records_view(records@)) {
            let k = choose|k: int|
                0 <= k < records@.len() && (#[trigger] crate::codec::records_view(
                    records@,
                )[k]) is Delete;
            assert(records@[k]@ is Delete);
        }
    }
    false
}

/// Whether `position` names a row of one of the files.
fn names_row(files: &Vec<DataFile>, position: PositionDelete) -> (named: bool)
    ensures
        named == in_range(files_view(files@), position),
{
    let file = position.data_file_number as usize;
    file < files.len() && position.data_file_row_number < files[file].reachable_rows()
}

/// Whether `position` is among the deletions.
fn listed_in(deletions: &Vec<Deletion>, position: PositionDelete) -> (found: bool)
    ensures
        found == is_marked(deletions_view(deletions@), position),
{
    let mut i: usize = 0;
    while i < deletions.len()
        invariant
            i <= deletions.len(),
            forall|k: int| 0 <= k < i ==> (#[trigger] deletions@[k]).position != position,
        decreases deletions.len() - i,
    {
        if deletions[i].position == position {
            assert(deletions_view(deletions@)[i as int].position == position);
            return true;
        }
        i += 1;
    }
    assert(!is_marked(deletions_view(deletions@), position)) by {
        if is_marked(deletions_view(deletions@), position) {
            let k = choose|k: int|
                0 <= k < deletions@.len() && (#[trigger] deletions_view(deletions@)[k]).position
                    == position;
            assert(deletions@[k].position == position);
        }
    }
    false
}

/// Makes the deletions that are not yet visible visible from `lsn` on.
fn tag_all(deletions: &mut Vec<Deletion>, lsn: u64)
    ensures
        deletions_view(final(deletions)@) == tagged(deletions_view(old(deletions)@), lsn),
{
    let ghost before = deletions_view(deletions@);
    let mut i: usize = 0;
    while i < deletions.len()
        invariant
            i <= deletions.len(),
            deletions.len() == before.len(),
            forall|k: int| 0 <= k < i ==> (#[trigger] deletions@[k])@ == tag(before[k], lsn),
            forall|k: int| i <= k < before.len() ==> (#[trigger] deletions@[k])@ == before[k],
        decreases deletions.len() - i,
    {
        let deletion = deletions[i];
        if deletion.lsn.is_none() {
            deletions.set(i, Deletion { position: deletion.position, lsn: Some(lsn) });
        }
        i += 1;
    }
    assert(deletions_view(deletions@) =~= tagged(before, lsn));
}

/// The number of leading deletions that became visible at or below `synced`.
fn settled_prefix(deletions: &Vec<Deletion>, synced: Option<u64>) -> (n: usize)
    ensures
        n == settled_count(deletions_view(deletions@), synced),
        n <= deletions.len(),
{
    let ghost all = deletions_view(deletions@);
    let mut n: usize = 0;
    assert(all.skip(0) =~= all);
    loop
        invariant
            n <= deletions.len(),
            all == deletions_view(deletions@),
            settled_count(all, synced) == n + settled_count(all.skip(n as int), synced),
        decreases deletions.len() - n,
    {
        if n >= deletions.len() {
            return n;
        }
        let is_settled = match (deletions[n].lsn, synced) {
            (Some(at), Some(up_to)) => at <= up_to,
            _ => false,
        };
        assert(all.skip(n as int).first() == deletions@[n as int]@);
        if !is_settled {
            return n;
        }
        assert(all.skip(n as int).drop_first() =~= all.skip(n + 1));
        n += 1;
    }
}

/// Replays the deletes and the commit markers among the records behind the
/// settled deletions `base`. `None` where a delete names no row of a data
/// file, or one that is deleted when its turn comes.
fn replay_deletions(files: &Vec<DataFile>, base: Vec<Deletion>, records: &Vec<WalRecord>) -> (out:
    Option<Vec<Deletion>>)
    requires
        forall|i: int| 0 <= i < base@.len() ==> (#[trigger] base@[i]).lsn is Some,
    ensures
        out.is_some() == valid_replay(
            files_view(files@),
            deletions_view(base@),
            records_view(records@),
        ),
        out matches Some(deletions) ==> deletions_view(deletions@) == deletions_view(base@)
            + pending_deletions(records_view(records@)),
{
    let ghost settled_part = deletions_view(base@);
    let ghost all = records_view(records@);
    let ghost file_views = files_view(files@);
    let mut deletions = base;
    let mut i: usize = 0;
    assert(all.take(0) =~= Seq::<RecordView>::empty());
    assert(deletions_view(deletions@) =~= settled_part + pending_deletions(all.take(0)));
    while i < records.len()
        invariant
            i <= records.len(),
            all == records_view(records@),
            file_views == files_view(files@),
            settled_part == deletions_view(base@),
            forall|k: int| 0 <= k < settled_part.len() ==> (#[trigger] settled_part[k]).lsn is Some,
            valid_replay(file_views, settled_part, all.take(i as int)),
            deletions_view(deletions@) == settled_part + pending_deletions(all.take(i as int)),
        decreases records.len() - i,
    {
        let ghost before = pending_deletions(all.take(i as int));
        proof {
            assert(all.take(i + 1).drop_last() =~= all.take(i as int));
            assert(all.take(i + 1).last() == records@[i as int]@);
        }
        match &records[i] {
            WalRecord::Delete(position) => {
                assert(all.take(i + 1).last() == RecordView::Delete(*position));
                if !names_row(files, *position) || listed_in(&deletions, *position) {
                    proof {
                        assert(!valid_replay(file_views, settled_part, all.take(i + 1)));
                        if valid_replay(file_views, settled_part, all) {
                            lemma_valid_replay_prefix(file_views, settled_part, all, i + 1);
                        }
                    }
                    return None;
                }
                let ghost held = deletions_view(deletions@);
                deletions.push(Deletion { position: *position, lsn: None });
                assert(deletions_view(deletions@) =~= held.push(
                    DeletionView { position: *position, lsn: None },
                ));
                assert(held.push(DeletionView { position: *position, lsn: None }) =~= settled_part
                    + before.push(DeletionView { position: *position, lsn: None }));
            },
            WalRecord::Commit(lsn) => {
                tag_all(&mut deletions, *lsn);
                assert(deletions_view(deletions@) =~= settled_part + tagged(before, *lsn)) by {
                    assert forall|k: int| 0 <= k < (settled_part + before).len() implies tagged(
                        settled_part + before,
                        *lsn,
                    )[k] == (settled_part + tagged(before, *lsn))[k] by {
                        if k < settled_part.len() {
                            assert(tag(settled_part[k], *lsn) == settled_part[k]);
                        }
                    }
                }
            },
            WalRecord::Append(_) => {},
        }
        i += 1;
    }
    assert(all.take(i as int) =~= all);
    Some(deletions)
}

/// Adds `n` files for which nothing is persisted.
fn pad(vectors: &mut Vec<Option<StoredVector>>, n: usize)
    ensures
        final(vectors)@.len() == old(vectors)@.len() + n,
        forall|k: int| 0 <= k < old(vectors)@.len() ==> final(vectors)@[k] == old(vectors)@[k],
        forall|k: int|
            old(vectors)@.len() <= k < final(vectors)@.len() ==> final(vectors)@[k] == None::<
                StoredVector,
            >,
{
    let mut i: usize = 0;
    while i < n
        invariant
            i <= n,
            vectors@.len() == old(vectors)@.len() + i,
            forall|k: int| 0 <= k < old(vectors)@.len() ==> vectors@[k] == old(vectors)@[k],
            forall|k: int|
                old(vectors)@.len() <= k < vectors@.len() ==> vectors@[k] == None::<StoredVector>,
        decreases n - i,
    {
        vectors.push(None);
        i += 1;
    }
}

/// A table.
#[derive(Debug)]
pub struct MooncakeTable {
    pub(crate) schema: Schema,
    pub(crate) name: String,
    pub(crate) table_id: u32,
    pub(crate) root: String,
    pub(crate) iceberg_config: IcebergTableConfig,
    pub(crate) config: MooncakeTableConfig,
    pub(crate) wal: Wal,
    pub(crate) buffer: MutableBuffer,
    pub(crate) files: Vec<DataFile>,
    pub(crate) deletions: Vec<Deletion>,
    pub(crate) vectors: Vec<Option<StoredVector>>,
    pub(crate) store: PuffinStore,
    pub(crate) cache: ObjectStorageCache,
    pub(crate) synced_lsn: Option<u64>,
    pub(crate) halted: bool,
    pub(crate) phase: TablePhase,
}

impl View for MooncakeTable {
    type V = TableView;

    closed spec fn view(&self) -> TableView {
        TableView {
            table_id: self.table_id,
            format: self.iceberg_config@,
            temp_dir: self.config.temp_files_directory@,
            schema: self.schema@,
            batch_size: self.config.batch_size as nat,
            append_only: self.config.append_only,
            identity: self.config.row_identity@,
            wal: self.wal@,
            batches: self.buffer@,
            files: files_view(self.files@),
            deletions: deletions_view(self.deletions@),
            synced_lsn: self.synced_lsn,
            halted: self.halted,
            phase: self.phase,
        }
    }
}

impl MooncakeTable {
    /// The name of the table.
    pub closed spec fn name(&self) -> Seq<char> {
        self.name@
    }

    /// The directory that the table keeps its files in.
    pub closed spec fn root(&self) -> Seq<char> {
        self.root@
    }

    /// Where the deletion vector of each data file is persisted, if it is.
    pub closed spec fn vectors(&self) -> Seq<Option<StoredVector>> {
        self.vectors@
    }

    /// The containers that the table has written.
    pub closed spec fn store(&self) -> Seq<Seq<u8>> {
        self.store@
    }

    /// The cache of the table.
    pub closed spec fn cache(&self) -> CacheView {
        self.cache@
    }

    /// What the representation adds to the invariant of the state: the parts
    /// of the table are each in order and agree with each other.
    pub closed spec fn inner_wf(&self) -> bool {
        &&& self.wal.wf()
        &&& self.cache.wf()
        &&& self.buffer.batch_size() == self.config.batch_size
    }

    /// The invariant of the table: that of its state and of its cache, and
    /// what is persisted of the deletions is right up to the LSN to which the
    /// table is flushed.
    pub open spec fn wf(&self) -> bool {
        &&& self@.wf()
        &&& self.inner_wf()
        &&& self.cache().wf()
        &&& vectors_ok(
            self@.files,
            self@.deletions,
            self@.synced_lsn,
            self.vectors(),
            self.store(),
        )
    }

    /// A table with the given schema and configuration on the given log: the
    /// buffer holds what the records of the log leave in it, and there is no
    /// data file yet. Fails where the schema and the configuration cannot make
    /// a table, and where the log holds a delete or was truncated, which
    /// cannot be the log of a table without data files.
    pub fn new(
        schema: Schema,
        table_name: String,
        table_id: u32,
        root_path: String,
        table_format_config: IcebergTableConfig,
        table_config: MooncakeTableConfig,
        wal: Wal,
        cache: ObjectStorageCache,
        accessor: PuffinStore,
    ) -> (made: Result<Self, TableError>)
        requires
            wal.wf(),
            cache.wf(),
        ensures
            made.is_ok() == (config_valid(
                schema@,
                table_config.batch_size as nat,
                table_config.row_identity@,
                table_config.append_only,
            ) && !holds_delete(wal@.records) && wal@.last_lsn == last_marker(wal@.records)),
            made matches Err(fault) ==> fault == if config_valid(
                schema@,
                table_config.batch_size as nat,
                table_config.row_identity@,
                table_config.append_only,
            ) {
                TableError::DurabilityFailure
            } else {
                TableError::InvalidConfig
            },
            made matches Ok(table) ==> {
                &&& table.wf()
                &&& table.name() == table_name@
                &&& table.root() == root_path@
                &&& table.store() == accessor@
                &&& table.cache() == cache@
                &&& table.vectors() == Seq::<Option<StoredVector>>::empty()
                &&& table@ == (TableView {
                    table_id,
                    format: table_format_config@,
                    temp_dir: table_config.temp_files_directory@,
                    schema: schema@,
                    batch_size: table_config.batch_size as nat,
                    append_only: table_config.append_only,
                    identity: table_config.row_identity@,
                    wal: wal@,
                    batches: replayed(table_config.batch_size as nat, wal@.records),
                    files: Seq::<FileView>::empty(),
                    deletions: Seq::<DeletionView>::empty(),
                    synced_lsn: None,
                    halted: false,
                    phase: TablePhase::Open,
                })
            },
    {
        if !validate_config(&schema, &table_config) {
            return Err(TableError::InvalidConfig);
        }
        let records = wal.records();
        if has_delete(&records) || !same_lsn(wal.last_lsn(), wal.last_marker()) {
            return Err(TableError::DurabilityFailure);
        }
        proof {
            lemma_no_deletes(wal@.records);
        }
        let buffer = MutableBuffer::replay(table_config.batch_size, records);
        let table = MooncakeTable {
            schema,
            name: table_name,
            table_id,
            root: root_path,
            iceberg_config: table_format_config,
            config: table_config,
            wal,
            buffer,
            files: Vec::new(),
            deletions: Vec::new(),
            vectors: Vec::new(),
            store: accessor,
            cache,
            synced_lsn: None,
            halted: false,
            phase: TablePhase::Open,
        };
        assert(table@.files =~= Seq::<FileView>::empty());
        assert(table@.deletions =~= Seq::<DeletionView>::empty());
        assert(table@.deletions.skip(0) =~= Seq::<DeletionView>::empty());
        Ok(table)
    }

    /// The number by which the table is known.
    pub fn table_id(&self) -> (id: u32)
        ensures
            id == self@.table_id,
    {
        self.table_id
    }

    /// How the table is known to the table format.
    pub fn table_format_config(&self) -> (config: &IcebergTableConfig)
        ensures
            config@ == self@.format,
    {
        &self.iceberg_config
    }

    /// How the table batches and identifies its rows, and where it keeps its
    /// temporary files.
    pub fn table_config(&self) -> (config: &MooncakeTableConfig)
        ensures
            config.batch_size == self@.batch_size,
            config.row_identity@ == self@.identity,
            config.append_only == self@.append_only,
            config.temp_files_directory@ == self@.temp_dir,
    {
        &self.config
    }

    /// Where the table stands in its cycle.
    pub fn phase(&self) -> (phase: TablePhase)
        ensures
            phase == self@.phase,
    {
        self.phase
    }

    /// Whether the log has failed, so that the table accepts nothing more.
    pub fn is_halted(&self) -> (halted: bool)
        ensures
            halted == self@.halted,
    {
        self.halted
    }

    /// The number of data files.
    pub fn file_count(&self) -> (n: usize)
        ensures
            n == self@.files.len(),
    {
        self.files.len()
    }

    /// The data files, in the order of their flushing.
    pub fn data_files(&self) -> (files: &Vec<DataFile>)
        ensures
            files_view(files@) == self@.files,
    {
        &self.files
    }

    /// The log of the table.
    pub fn wal(&self) -> (wal: &Wal)
        ensures
            wal@ == self@.wal,
            self.wf() ==> wal.wf(),
    {
        &self.wal
    }

    /// The containers that the table has written.
    pub fn puffin_store(&self) -> (store: &PuffinStore)
        ensures
            store@ == self.store(),
    {
        &self.store
    }

    /// The cache of the table.
    pub fn object_cache(&self) -> (cache: &ObjectStorageCache)
        ensures
            cache@ == self.cache(),
            self.wf() ==> cache.wf(),
    {
        &self.cache
    }

    /// The LSN up to which the table is flushed.
    pub fn flushed_lsn(&self) -> (lsn: Option<u64>)
        ensures
            lsn == self@.synced_lsn,
    {
        self.synced_lsn
    }

    /// Reclaims space in the cache of the table down to `target_bytes`, as
    /// [`ObjectStorageCache::evict_to`] does, and returns the containers
    /// evicted. No container that a snapshot still pins is evicted.
    pub fn evict_cache_to(&mut self, target_bytes: u64) -> (evicted: Vec<u64>)
        requires
            old(self).wf(),
        ensures
            final(self).wf(),
            final(self)@ == old(self)@,
            final(self).vectors() == old(self).vectors(),
            final(self).store() == old(self).store(),
            final(self).root() == old(self).root(),
            final(self).cache() == old(self).cache().evicted_to(target_bytes),
            evicted@.len() == crate::cache::evict_count(
                old(self).cache().evictable,
                old(self).cache().usage() - target_bytes,
            ),
            forall|k: int|
                0 <= k < evicted@.len() ==> evicted@[k] == old(self).cache().evictable[k].file_id,
    {
        self.cache.evict_to(target_bytes)
    }

    /// Gives up the table and keeps its log.
    pub fn into_wal(self) -> (wal: Wal)
        ensures
            wal@ == self@.wal,
            self.wf() ==> wal.wf(),
    {
        self.wal
    }

    /// Recovers the table after a crash or a halt from the durable image of
    /// its log: the data files and the persisted deletion vectors stay; the
    /// log is read from the image, where a frame at the end that was not
    /// written to its end is left out; the buffer and the deletions that are
    /// in no persisted vector are rebuilt by a replay of the log; the cache
    /// starts empty; and the table accepts records again. Fails where the
    /// image is not the image of a log of this table.
    pub fn recover(self, image: &[u8]) -> (made: Result<MooncakeTable, TableError>)
        requires
            self.wf(),
        ensures
            match made {
                Ok(table) => {
                    &&& self@.recoverable(image@)
                    &&& table.wf()
                    &&& table@ == self@.recovered(parse_log(image@)->Ok_0)
                    &&& table.vectors() == self.vectors()
                    &&& table.store() == self.store()
                    &&& table.root() == self.root()
                    &&& table.name() == self.name()
                    &&& table.cache() == (CacheView {
                        pinned: Seq::<EntryView>::empty(),
                        evictable: Seq::<EntryView>::empty(),
                        root: self.cache().root,
                    })
                },
                Err(fault) => fault == TableError::DurabilityFailure && !self@.recoverable(image@),
            },
    {
        let ghost start = self@;
        let wal = match Wal::recover(self.wal.capacity(), self.synced_lsn, image) {
            Err(_) => {
                return Err(TableError::DurabilityFailure);
            },
            Ok(wal) => wal,
        };
        let records = wal.records();
        let n = settled_prefix(&self.deletions, self.synced_lsn);
        let mut table = self;
        let mut base: Vec<Deletion> = Vec::new();
        std::mem::swap(&mut table.deletions, &mut base);
        base.truncate(n);
        proof {
            lemma_settled_count(start.deletions, start.synced_lsn);
            assert(deletions_view(base@) =~= start.settled_deletions());
            assert forall|i: int| 0 <= i < base@.len() implies (#[trigger] base@[i]).lsn is Some by {
                assert(settled(start.deletions[i], start.synced_lsn));
            }
        }
        let deletions = match replay_deletions(&table.files, base, &records) {
            None => {
                return Err(TableError::DurabilityFailure);
            },
            Some(deletions) => deletions,
        };
        proof {
            lemma_recovered_keeps_wf(start, wal@.records);
        }
        table.deletions = deletions;
        table.buffer = MutableBuffer::replay(table.config.batch_size, records);
        table.wal = wal;
        table.cache.clear();
        table.halted = false;
        table.phase = TablePhase::Open;
        Ok(table)
    }

    /// Appends a row: checks it against the schema, logs it, then buffers it.
    /// A row that does not fit the schema changes nothing. Where the log
    /// refuses the row the table halts.
    pub fn append(&mut self, row: MoonlinkRow) -> (done: Result<(), TableError>)
        requires
            old(self).wf(),
        ensures
            final(self).wf(),
            final(self)@ == old(self)@.appended(row@),
            final(self).vectors() == old(self).vectors(),
            final(self).store() == old(self).store(),
            final(self).cache() == old(self).cache(),
            final(self).root() == old(self).root(),
            match done {
                Ok(_) => old(self)@.append_fault(row@).is_none(),
                Err(fault) => old(self)@.append_fault(row@) == Some(fault),
            },
    {
        proof {
            lemma_appended_keeps_wf(self@, row@);
        }
        if !self.schema.accepts(&row) {
            return Err(TableError::SchemaMismatch);
        }
        if self.halted {
            return Err(TableError::DurabilityFailure);
        }
        match self.wal.append(WalRecord::Append(row.clone())) {
            Err(_) => {
                self.halted = true;
                Err(TableError::DurabilityFailure)
            },
            Ok(_) => {
                self.buffer.append(row);
                self.phase = TablePhase::Open;
                Ok(())
            },
        }
    }

    /// Commits under `lsn`: logs the commit marker, then seals the batches of
    /// the buffer and makes them, and the deletes so far, visible from `lsn`
    /// on. Nothing is written to storage. Where the log refuses the marker,
    /// as it does for an LSN that is not above the last commit's, the table
    /// halts.
    pub fn commit(&mut self, lsn: u64) -> (done: Result<(), TableError>)
        requires
            old(self).wf(),
        ensures
            final(self).wf(),
            final(self)@ == old(self)@.committed(lsn),
            final(self).vectors() == old(self).vectors(),
            final(self).store() == old(self).store(),
            final(self).cache() == old(self).cache(),
            final(self).root() == old(self).root(),
            match done {
                Ok(_) => old(self)@.commit_fault(lsn).is_none(),
                Err(fault) => old(self)@.commit_fault(lsn) == Some(fault),
            },
    {
        proof {
            lemma_committed_keeps_wf(self@, lsn);
            assert forall|f: int| 0 <= f < self@.files.len() implies deleted_up_to(
                self@.committed(lsn).deletions,
                f,
                self@.synced_lsn,
            ) == deleted_up_to(self@.deletions, f, self@.synced_lsn) by {
                lemma_later_deletes_unseen(self@, self@.committed(lsn), f);
            }
        }
        if self.halted {
            return Err(TableError::DurabilityFailure);
        }
        match self.wal.commit_marker(lsn) {
            Err(_) => {
                self.halted = true;
                Err(TableError::DurabilityFailure)
            },
            Ok(_) => {
                self.buffer.commit(lsn);
                let mut deletions: Vec<Deletion> = Vec::new();
                std::mem::swap(&mut self.deletions, &mut deletions);
                tag_all(&mut deletions, lsn);
                self.deletions = deletions;
                self.phase = TablePhase::CommittedPendingFlush;
                Ok(())
            },
        }
    }

    fn marked(&self, position: PositionDelete) -> (found: bool)
        ensures
            found == is_marked(self@.deletions, position),
    {
        listed_in(&self.deletions, position)
    }

    fn key_matches(keys: &Vec<usize>, a: &MoonlinkRow, b: &MoonlinkRow) -> (same: bool)
        ensures
            same == same_key(keys@, a@, b@),
    {
        let mut i: usize = 0;
        while i < keys.len()
            invariant
                i <= keys.len(),
                forall|k: int|
                    0 <= k < i ==> (#[trigger] keys@[k]) < a@.len() && keys@[k] < b@.len() && a@[keys@[k] as int]
                        == b@[keys@[k] as int],
            decreases keys.len() - i,
        {
            let key = keys[i];
            if key >= a.values.len() || key >= b.values.len() || !a.values[key].same(
                &b.values[key],
            ) {
                assert(!(keys@[i as int] < a@.len() && keys@[i as int] < b@.len() && a@[keys@[i as int] as int]
                    == b@[keys@[i as int] as int]));
                return false;
            }
            i += 1;
        }
        true
    }

    /// The first row of the data files, in file order and then in row order,
    /// that has the key of `row` and is not deleted; `None` where there is no
    /// such row, and on a table without row identity.
    pub fn locate(&self, row: &MoonlinkRow) -> (found: Option<PositionDelete>)
        ensures
            is_located(self@, row@, found),
    {
        let keys = match &self.config.row_identity {
            IdentityProp::NoIdentity => {
                return None;
            },
            IdentityProp::Keys(keys) => keys,
        };
        let ghost files = self@.files;
        let ghost deletions = self@.deletions;
        let mut f: usize = 0;
        while f < self.files.len() && f <= u32::MAX as usize
            invariant
                f <= self.files.len(),
                files == self@.files,
                deletions == self@.deletions,
                self@.identity == Identity::Keys(keys@),
                forall|other: PositionDelete|
                    other.data_file_number < f ==> !holds_key(files, deletions, keys@, row@, other),
            decreases self.files.len() - f,
        {
            let rows = self.files[f].rows();
            let reach = self.files[f].reachable_rows();
            assert(crate::buffer::rows_view(rows@) == files[f as int].rows);
            let mut r: u32 = 0;
            while r < reach
                invariant
                    r <= reach,
                    f < self.files.len(),
                    f <= u32::MAX,
                    files == self@.files,
                    deletions == self@.deletions,
                    reach == reachable_rows(files[f as int]),
                    crate::buffer::rows_view(rows@) == files[f as int].rows,
                    self@.identity == Identity::Keys(keys@),
                    forall|other: PositionDelete|
                        other.data_file_number < f ==> !holds_key(
                            files,
                            deletions,
                            keys@,
                            row@,
                            other,
                        ),
                    forall|other: PositionDelete|
                        other.data_file_number == f && other.data_file_row_number < r
                            ==> !holds_key(files, deletions, keys@, row@, other),
                decreases reach - r,
            {
                let position = PositionDelete {
                    data_file_number: f as u32,
                    data_file_row_number: r,
                };
                assert(crate::buffer::rows_view(rows@)[r as int] == rows@[r as int]@);
                if Self::key_matches(keys, &rows[r as usize], row) && !self.marked(position) {
                    return Some(position);
                }
                assert forall|other: PositionDelete|
                    other.data_file_number == f && other.data_file_row_number < r + 1
                        implies !holds_key(files, deletions, keys@, row@, other) by {
                    if other.data_file_row_number == r {
                        assert(other == position);
                    }
                }
                r += 1;
            }
            assert forall|other: PositionDelete| other.data_file_number < f + 1 implies !holds_key(
                files,
                deletions,
                keys@,
                row@,
                other,
            ) by {
                if other.data_file_number == f {
                    if in_range(files, other) {
                        assert(other.data_file_row_number < reach);
                    }
                }
            }
            f += 1;
        }
        None
    }

    /// Deletes the first row that has the key of `row` and is not deleted, as
    /// [`MooncakeTable::delete`] deletes the row at its position, and says
    /// which position that was. Where there is no such row, and on a table
    /// without row identity, nothing changes, and what is reported is what
    /// [`MooncakeTable::delete`] reports for a position out of range.
    pub fn delete_row(&mut self, row: &MoonlinkRow) -> (done: (
        Option<PositionDelete>,
        Result<MarkOutcome, TableError>,
    ))
        requires
            old(self).wf(),
        ensures
            final(self).wf(),
            final(self).vectors() == old(self).vectors(),
            final(self).store() == old(self).store(),
            final(self).cache() == old(self).cache(),
            final(self).root() == old(self).root(),
            is_located(old(self)@, row@, done.0),
            final(self)@ == match done.0 {
                Some(position) => old(self)@.deleted(position),
                None => old(self)@,
            },
            done.1 == match done.0 {
                Some(position) => match old(self)@.delete_fault(position) {
                    Some(fault) => Err::<MarkOutcome, TableError>(fault),
                    None => Ok::<MarkOutcome, TableError>(MarkOutcome::Marked),
                },
                None => if old(self)@.append_only {
                    Err::<MarkOutcome, TableError>(TableError::AppendOnly)
                } else if old(self)@.halted {
                    Err::<MarkOutcome, TableError>(TableError::DurabilityFailure)
                } else {
                    Ok::<MarkOutcome, TableError>(MarkOutcome::DeletionOutOfRange)
                },
            },
    {
        match self.locate(row) {
            Some(position) => {
                let done = self.delete(position);
                (Some(position), done)
            },
            None => {
                if self.config.append_only {
                    (None, Err(TableError::AppendOnly))
                } else if self.halted {
                    (None, Err(TableError::DurabilityFailure))
                } else {
                    (None, Ok(MarkOutcome::DeletionOutOfRange))
                }
            },
        }
    }

    /// Deletes the row at `position`: logs the delete and records it; it
    /// becomes visible with the next commit. A position that names no row of
    /// a data file, and one that is deleted already, are reported and change
    /// nothing. Where the log refuses the delete the table halts.
    pub fn delete(&mut self, position: PositionDelete) -> (done: Result<MarkOutcome, TableError>)
        requires
            old(self).wf(),
        ensures
            final(self).wf(),
            final(self)@ == old(self)@.deleted(position),
            final(self).vectors() == old(self).vectors(),
            final(self).store() == old(self).store(),
            final(self).cache() == old(self).cache(),
            final(self).root() == old(self).root(),
            match done {
                Ok(outcome) => old(self)@.delete_fault(position).is_none() && outcome == old(
                    self,
                )@.delete_outcome(position),
                Err(fault) => old(self)@.delete_fault(position) == Some(fault),
            },
    {
        proof {
            lemma_deleted_keeps_wf(self@, position);
            assert forall|f: int| 0 <= f < self@.files.len() implies deleted_up_to(
                self@.deleted(position).deletions,
                f,
                self@.synced_lsn,
            ) == deleted_up_to(self@.deletions, f, self@.synced_lsn) by {
                lemma_later_deletes_unseen(self@, self@.deleted(position), f);
            }
        }
        if self.config.append_only {
            return Err(TableError::AppendOnly);
        }
        if self.halted {
            return Err(TableError::DurabilityFailure);
        }
        if !names_row(&self.files, position) {
            return Ok(MarkOutcome::DeletionOutOfRange);
        }
        if self.marked(position) {
            return Ok(MarkOutcome::DuplicateDelete);
        }
        match self.wal.append(WalRecord::Delete(position)) {
            Err(_) => {
                self.halted = true;
                Err(TableError::DurabilityFailure)
            },
            Ok(_) => {
                self.phase = TablePhase::Open;
                self.deletions.push(Deletion { position, lsn: None });
                assert(deletions_view(self.deletions@) =~= old(self)@.deletions.push(
                    DeletionView { position, lsn: None },
                ));
                Ok(MarkOutcome::Marked)
            },
        }
    }

    /// Flushes at `lsn`: every batch committed at or below `lsn` becomes a
    /// data file, in batch order; the deletion vectors are persisted up to
    /// the same LSN, those that changed in one new container; and the log
    /// drops the records that the data files and the vectors now stand for. A
    /// second flush at the same LSN finds nothing to do. Fails, and changes
    /// nothing, on a halted table.
    pub fn flush_and_sync(&mut self, lsn: u64) -> (done: Result<(), TableError>)
        requires
            old(self).wf(),
        ensures
            final(self).wf(),
            final(self)@ == old(self)@.flushed(lsn),
            final(self).cache() == old(self).cache(),
            final(self).root() == old(self).root(),
            old(self).store().len() <= final(self).store().len() <= old(self).store().len() + 1,
            forall|id: int|
                0 <= id < old(self).store().len() ==> final(self).store()[id] == old(
                    self,
                ).store()[id],
            done.is_ok() == !old(self)@.halted,
            done matches Err(fault) ==> fault == TableError::DurabilityFailure,
    {
        proof {
            lemma_flushed_keeps_wf(self@, lsn);
        }
        if self.halted {
            return Err(TableError::DurabilityFailure);
        }
        let ghost before = self@;
        let reach = match self.wal.last_lsn() {
            None => self.synced_lsn,
            Some(last) => {
                let reach = if lsn < last {
                    lsn
                } else {
                    last
                };
                match self.synced_lsn {
                    Some(synced) => if synced >= reach {
                        Some(synced)
                    } else {
                        Some(reach)
                    },
                    None => Some(reach),
                }
            },
        };
        let mut made = self.buffer.flush(lsn);
        let ghost made_view = files_view(made@);
        pad(&mut self.vectors, made.len());
        self.files.append(&mut made);
        assert(files_view(self.files@) =~= before.files + made_view);
        self.wal.truncate(lsn);
        let after = self.synced_lsn;
        self.synced_lsn = reach;
        self.phase = TablePhase::Flushed;
        proof {
            let next = before.flushed(lsn);
            assert forall|f: int| 0 <= f < next.files.len() implies vector_ok(
                next.files[f],
                deleted_up_to(next.deletions, f, after),
                #[trigger] self.vectors@[f],
                self.store@,
            ) by {
                if f < before.files.len() {
                    assert(next.files[f] == before.files[f]);
                    assert(self.vectors@[f] == old(self).vectors@[f]);
                } else {
                    if after is Some {
                        assert forall|row: u32|
                            !deleted_offsets(next.deletions, f, after.unwrap()).contains(row) by {
                            if deleted_offsets(next.deletions, f, after.unwrap()).contains(row) {
                                let k = choose|k: int|
                                    0 <= k < next.deletions.len() && visible(
                                        #[trigger] next.deletions[k],
                                        f,
                                        after.unwrap(),
                                    ) && next.deletions[k].position.data_file_row_number == row;
                                assert(in_range(before.files, before.deletions[k].position));
                            }
                        }
                        assert(deleted_offsets(next.deletions, f, after.unwrap()) =~= Set::<
                            u32,
                        >::empty());
                    }
                }
            }
        }
        proof {
            let next = before.flushed(lsn);
            assert forall|i: int| 0 <= i < self.deletions@.len() implies in_range(
                files_view(self.files@),
                (#[trigger] self.deletions@[i])@.position,
            ) by {
                assert(next.deletions[i] == self.deletions@[i]@);
                assert(in_range(next.files, next.deletions[i].position));
            }
        }
        match reach {
            Some(up_to) => {
                sync_vectors(
                    &self.files,
                    &self.deletions,
                    &mut self.vectors,
                    &mut self.store,
                    after,
                    up_to,
                );
            },
            None => {},
        }
        Ok(())
    }

    /// Takes the snapshot of the table at `lsn`: the data files flushed under a
    /// commit at or below `lsn`; where the table is flushed up to an LSN at or
    /// below `lsn`, the persisted deletion vectors, their containers pinned
    /// in the cache, one pin for each vector; and the deletions that became
    /// visible at or below `lsn` and are in no such vector. The table itself
    /// stays as it is. Where a container cannot be pinned, no pin is left
    /// behind.
    pub fn create_snapshot(&mut self, lsn: u64) -> (made: Result<Snapshot, TableError>)
        requires
            old(self).wf(),
        ensures
            final(self).wf(),
            final(self)@ == if made.is_ok() {
                TableView { phase: TablePhase::Snapshotted, ..old(self)@ }
            } else {
                old(self)@
            },
            final(self).vectors() == old(self).vectors(),
            final(self).store() == old(self).store(),
            final(self).root() == old(self).root(),
            ({
                let base = base_of(old(self)@.synced_lsn, lsn);
                let used = if base is Some {
                    old(self).vectors()
                } else {
                    Seq::<Option<StoredVector>>::empty()
                };
                let ids = vector_ids(used);
                match made {
                    Ok(snapshot) => {
                        &&& !pin_fault(old(self).cache(), ids, old(self).store())
                        &&& final(self).cache() == pinned_all(
                            old(self).cache(),
                            ids,
                            old(self).store(),
                        )
                        &&& snapshot.lsn == lsn
                        &&& snapshot.data_files@.len() == visible_files(old(self)@.files, lsn)
                        &&& forall|i: int|
                            0 <= i < snapshot.data_files@.len() ==> {
                                &&& (#[trigger] snapshot.data_files@[i]).number() == i
                                &&& snapshot.data_files@[i].path() == data_path(old(self).root(), i)
                                &&& snapshot.data_files@[i].rows() == old(self)@.files[i].rows.len()
                            }
                        &&& snapshot.position_deletes@ == position_deletes_at(
                            old(self)@.deletions,
                            base,
                            lsn,
                        )
                        &&& snapshot.deletion_vectors@ == vector_refs(used)
                        &&& snapshot.puffin_cache_handles@.len() == ids.len()
                        &&& forall|k: int|
                            0 <= k < ids.len() ==> (
                            #[trigger] snapshot.puffin_cache_handles@[k]).file_id() == ids[k]
                                && snapshot.puffin_cache_handles@[k].path() == cache_path(
                                old(self).cache().root,
                                ids[k],
                            )
                    },
                    Err(fault) => {
                        &&& fault == TableError::StorageIOFailure
                        &&& pin_fault(old(self).cache(), ids, old(self).store())
                        &&& forall|id: u64|
                            final(self).cache().pins(id) == old(self).cache().pins(id)
                    },
                }
            }),
    {
        let base = match self.synced_lsn {
            Some(at) => if at <= lsn {
                Some(at)
            } else {
                None
            },
            None => None,
        };
        let empty: Vec<Option<StoredVector>> = Vec::new();
        proof {
            assert forall|f: int|
                0 <= f < self.vectors@.len() && (#[trigger] self.vectors@[f]) is Some implies f
                <= u32::MAX by {
                crate::snapshot::lemma_vector_file_fits(
                    self@.files,
                    self@.deletions,
                    self@.synced_lsn,
                    self.vectors(),
                    self.store(),
                    f,
                );
            }
        }
        let (refs, ids) = if base.is_some() {
            collect_refs(&self.vectors)
        } else {
            collect_refs(&empty)
        };
        let handles = match pin_all(&mut self.cache, &self.store, &ids) {
            Err(_) => {
                return Err(TableError::StorageIOFailure);
            },
            Ok(handles) => handles,
        };
        let position_deletes = collect_position_deletes(&self.deletions, base, lsn);
        let data_files = list_files(&self.files, &self.root, lsn);
        self.phase = TablePhase::Snapshotted;
        Ok(
            Snapshot {
                lsn,
                data_files,
                puffin_cache_handles: handles,
                deletion_vectors: refs,
                position_deletes,
            },
        )
    }

    /// Releases a snapshot: gives back the pins on the containers of its
    /// deletion vectors, the last one first.
    pub fn release_snapshot(&mut self, snapshot: Snapshot)
        requires
            old(self).wf(),
        ensures
            final(self).wf(),
            final(self)@ == old(self)@,
            final(self).vectors() == old(self).vectors(),
            final(self).store() == old(self).store(),
            final(self).root() == old(self).root(),
            final(self).cache() == released_all(
                old(self).cache(),
                Seq::new(
                    snapshot.puffin_cache_handles@.len(),
                    |k: int| snapshot.puffin_cache_handles@[k].file_id(),
                ),
            ),
    {
        release_all(&mut self.cache, snapshot.puffin_cache_handles);
    }
}

} // verus!
