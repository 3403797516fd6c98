//! Why the log suffices to rebuild what is not yet flushed: what a replay of
//! the log leaves in an empty buffer and behind the settled deletions, and how
//! a flush and the truncation of the log go together.

use crate::buffer::{
    appended, applied, commit_batch, committed, eligible, files_of, flush_count, replayed,
    BatchView,
};
use crate::codec::{
    encodable, encode_frame, encode_log, lemma_log_round_trip, parse_log, DecodeError, RecordView,
};
use crate::buffer::FileView;
use crate::table::{in_range, is_marked, tag, tagged, DeletionView, TableView};
use crate::wal::{cut, lemma_cut_bounds, ordered, restorable};
use vstd::prelude::*;

verus! {

/// Whether every batch is sealed and committed.
pub open spec fn closed(batches: Seq<BatchView>) -> bool {
    forall|i: int|
        0 <= i < batches.len() ==> (#[trigger] batches[i]).sealed && batches[i].lsn is Some
}

/// Whether one of the records is the commit marker of `lsn`.
pub open spec fn has_marker(records: Seq<RecordView>, lsn: u64) -> bool {
    exists|j: int| 0 <= j < records.len() && #[trigger] records[j] == RecordView::Commit(lsn)
}

/// Behind the cut no commit marker is at or below `lsn`; the record before
/// the cut, where there is one, is such a marker.
pub proof fn lemma_cut(records: Seq<RecordView>, lsn: u64)
    ensures
        0 <= cut(records, lsn) <= records.len(),
        cut(records, lsn) > 0 ==> (records[cut(records, lsn) - 1] matches RecordView::Commit(at)
            && at <= lsn),
        forall|j: int|
            cut(records, lsn) <= j < records.len() ==> !((
            #[trigger] records[j]) matches RecordView::Commit(at) && at <= lsn),
    decreases records.len(),
{
    lemma_cut_bounds(records, lsn);
    if records.len() == 0 {
    } else if records.last() matches RecordView::Commit(at) && at <= lsn {
    } else {
        let init = records.drop_last();
        lemma_cut(init, lsn);
        let k = cut(records, lsn);
        if k > 0 {
            assert(init[k - 1] == records[k - 1]);
        }
        assert forall|j: int| k <= j < records.len() implies !((
        #[trigger] records[j]) matches RecordView::Commit(at) && at <= lsn) by {
            if j < init.len() {
                assert(init[j] == records[j]);
            }
        }
    }
}

/// A batch that a replay leaves committed was committed by a marker of the
/// log.
pub proof fn lemma_replayed_tags(batch_size: nat, records: Seq<RecordView>)
    ensures
        forall|i: int|
            0 <= i < replayed(batch_size, records).len() ==> ((
            #[trigger] replayed(batch_size, records)[i]).lsn matches Some(at) ==> has_marker(
                records,
                at,
            )),
    decreases records.len(),
{
    if records.len() > 0 {
        let init = records.drop_last();
        lemma_replayed_tags(batch_size, init);
        let before = replayed(batch_size, init);
        let after = replayed(batch_size, records);
        assert forall|i: int| 0 <= i < after.len() implies ((#[trigger] after[i]).lsn matches Some(
            at,
        ) ==> has_marker(records, at)) by {
            if after[i].lsn is Some {
                let at = after[i].lsn.unwrap();
                let from_before = i < before.len() && before[i].lsn == Some(at);
                if from_before {
                    assert(has_marker(init, at));
                    let j = choose|j: int|
                        0 <= j < init.len() && #[trigger] init[j] == RecordView::Commit(at);
                    assert(records[j] == RecordView::Commit(at));
                } else {
                    match records.last() {
                        RecordView::Append(row) => {
                            if i < before.len() - 1 {
                                assert(after[i] == before[i]);
                            }
                        },
                        RecordView::Commit(lsn) => {
                            assert(after[i] == commit_batch(before[i], lsn));
                            assert(records[records.len() - 1] == RecordView::Commit(at));
                        },
                        RecordView::Delete(_) => {},
                    }
                }
            }
        }
    }
}

/// A replay that ends at a commit marker leaves every batch sealed and
/// committed.
pub proof fn lemma_replayed_closed(batch_size: nat, records: Seq<RecordView>)
    requires
        records.len() > 0,
        records.last() is Commit,
    ensures
        closed(replayed(batch_size, records)),
{
}

/// Behind batches that are all sealed and committed, a record acts on the
/// batches that follow alone.
pub proof fn lemma_applied_behind_closed(
    head: Seq<BatchView>,
    tail: Seq<BatchView>,
    batch_size: nat,
    record: RecordView,
)
    requires
        closed(head),
    ensures
        applied(head + tail, batch_size, record) == head + applied(tail, batch_size, record),
{
    let all = head + tail;
    match record {
        RecordView::Append(row) => {
            if tail.len() == 0 {
                assert(all =~= head);
                if head.len() > 0 {
                    assert(head[head.len() - 1].sealed);
                }
                assert(appended(all, batch_size, row) =~= head + appended(tail, batch_size, row));
            } else {
                assert(all.last() == tail.last());
                assert(all.drop_last() =~= head + tail.drop_last());
                assert(appended(all, batch_size, row) =~= head + appended(tail, batch_size, row));
            }
        },
        RecordView::Commit(lsn) => {
            assert forall|i: int| 0 <= i < all.len() implies committed(all, lsn)[i] == (head
                + committed(tail, lsn))[i] by {
                if i < head.len() {
                    assert(head[i].sealed && head[i].lsn is Some);
                    assert(commit_batch(head[i], lsn) == head[i]);
                } else {
                    assert(all[i] == tail[i - head.len()]);
                }
            }
            assert(committed(all, lsn) =~= head + committed(tail, lsn));
        },
        RecordView::Delete(_) => {},
    }
}

/// Where the replay of the first part of a log leaves every batch sealed and
/// committed, the replay of the whole log leaves those batches, and behind
/// them what the replay of the second part alone leaves.
pub proof fn lemma_replay_split(batch_size: nat, first: Seq<RecordView>, second: Seq<RecordView>)
    requires
        closed(replayed(batch_size, first)),
    ensures
        replayed(batch_size, first + second) == replayed(batch_size, first) + replayed(
            batch_size,
            second,
        ),
    decreases second.len(),
{
    if second.len() == 0 {
        assert(first + second =~= first);
        assert(replayed(batch_size, first) + replayed(batch_size, second) =~= replayed(
            batch_size,
            first,
        ));
    } else {
        let init = second.drop_last();
        lemma_replay_split(batch_size, first, init);
        assert((first + second).drop_last() =~= first + init);
        assert((first + second).last() == second.last());
        lemma_applied_behind_closed(
            replayed(batch_size, first),
            replayed(batch_size, init),
            batch_size,
            second.last(),
        );
    }
}

/// A flush at `lsn` takes exactly the batches that the records up to the last
/// commit marker at or below `lsn` made, and leaves in the buffer what a replay
/// of the records behind that marker makes. So after a flush and the
/// truncation of the log at the same LSN the buffer is again what the log
/// replays to.
pub proof fn lemma_flush_matches_truncation(batch_size: nat, records: Seq<RecordView>, lsn: u64)
    requires
        ordered(records),
    ensures
        ({
            let all = replayed(batch_size, records);
            let k = cut(records, lsn);
            &&& flush_count(all, lsn) <= all.len()
            &&& all.take(flush_count(all, lsn) as int) == replayed(batch_size, records.take(k))
            &&& all.skip(flush_count(all, lsn) as int) == replayed(batch_size, records.skip(k))
            &&& forall|i: int|
                0 <= i < flush_count(all, lsn) ==> (#[trigger] all[i]).lsn is Some && has_marker(
                    records,
                    all[i].lsn.unwrap(),
                )
        }),
{
    let all = replayed(batch_size, records);
    let k = cut(records, lsn);
    lemma_cut(records, lsn);
    let first = records.take(k);
    let second = records.skip(k);
    assert(first + second =~= records);
    let head = replayed(batch_size, first);
    let tail = replayed(batch_size, second);
    if k > 0 {
        assert(first.last() == records[k - 1]);
        lemma_replayed_closed(batch_size, first);
    }
    lemma_replay_split(batch_size, first, second);
    assert(all == head + tail);
    lemma_replayed_tags(batch_size, first);
    lemma_replayed_tags(batch_size, second);
    assert forall|i: int| 0 <= i < head.len() implies eligible(#[trigger] head[i], lsn) by {
        assert(head[i].lsn is Some);
        let at = head[i].lsn.unwrap();
        assert(has_marker(first, at));
        let j = choose|j: int|
            0 <= j < first.len() && #[trigger] first[j] == RecordView::Commit(at);
        assert(records[j] == RecordView::Commit(at));
        if j < k - 1 {
            assert(records[j] matches RecordView::Commit(a) ==> (
            records[k - 1] matches RecordView::Commit(b) ==> a < b));
        }
    }
    assert forall|i: int| 0 <= i < tail.len() implies !eligible(#[trigger] tail[i], lsn) by {
        if tail[i].lsn is Some {
            let at = tail[i].lsn.unwrap();
            assert(has_marker(second, at));
            let j = choose|j: int|
                0 <= j < second.len() && #[trigger] second[j] == RecordView::Commit(at);
            assert(records[j + k] == RecordView::Commit(at));
        }
    }
    lemma_flush_prefix(head, tail, lsn);
    assert(all.take(head.len() as int) =~= head);
    assert(all.skip(head.len() as int) =~= tail);
    lemma_replayed_tags(batch_size, records);
    assert forall|i: int| 0 <= i < flush_count(all, lsn) implies (#[trigger] all[i]).lsn is Some
        && has_marker(records, all[i].lsn.unwrap()) by {
        assert(all[i] == head[i]);
        assert(eligible(head[i], lsn));
    }
}

/// Where the leading batches are all eligible and none of those behind them
/// is, a flush takes exactly the leading ones.
pub proof fn lemma_flush_prefix(head: Seq<BatchView>, tail: Seq<BatchView>, lsn: u64)
    requires
        forall|i: int| 0 <= i < head.len() ==> eligible(#[trigger] head[i], lsn),
        forall|i: int| 0 <= i < tail.len() ==> !eligible(#[trigger] tail[i], lsn),
    ensures
        flush_count(head + tail, lsn) == head.len(),
    decreases head.len(),
{
    let all = head + tail;
    if head.len() == 0 {
        assert(all =~= tail);
        if tail.len() > 0 {
            assert(!eligible(tail[0], lsn));
        }
    } else {
        assert(all.first() == head[0]);
        assert(all.drop_first() =~= head.drop_first() + tail);
        assert forall|i: int| 0 <= i < head.drop_first().len() implies eligible(
            #[trigger] head.drop_first()[i],
            lsn,
        ) by {
            assert(head.drop_first()[i] == head[i + 1]);
        }
        lemma_flush_prefix(head.drop_first(), tail, lsn);
    }
}

/// Recovery loses nothing that was acknowledged. A table can be recovered
/// from the durable image of its own log, also where a crash left behind the
/// image the beginning of one more frame; and the table recovered from the
/// records of its log is the table itself, with its log, its buffer, its data
/// files and its deletions as they were, ready to accept records.
pub proof fn lemma_recover_restores(t: TableView, torn: RecordView, k: int)
    requires
        t.wf(),
        encodable(torn),
        0 <= k < encode_frame(torn).len(),
    ensures
        t.recoverable(encode_log(t.wal.records)),
        t.recoverable(encode_log(t.wal.records) + encode_frame(torn).take(k)),
        t.recovered(t.wal.records) == (TableView {
            halted: false,
            phase: crate::table::TablePhase::Open,
            ..t
        }),
{
    lemma_log_round_trip(t.wal.records, torn, k);
    lemma_own_log_valid(t, t.wal.records.len() as int);
    assert(t.wal.records.take(t.wal.records.len() as int) =~= t.wal.records);
    let n = settled_count(t.deletions, t.synced_lsn) as int;
    lemma_settled_count(t.deletions, t.synced_lsn);
    assert(t.deletions.take(n) + t.deletions.skip(n) =~= t.deletions);
}

/// After a crash the log suffices. The durable image of the log of a table
/// reads back as the records of the log, also where the crash left behind it
/// the beginning of one more frame; the records can make up a log again; and
/// their replay leaves in an empty buffer the batches that the table had
/// buffered, so that a flush of the rebuilt buffer makes the data files that a
/// flush of the buffer itself would have made.
pub proof fn lemma_crash_recovery(t: TableView, torn: RecordView, k: int, lsn: u64)
    requires
        t.wf(),
        encodable(torn),
        0 <= k < encode_frame(torn).len(),
    ensures
        parse_log(encode_log(t.wal.records)) == Ok::<Seq<RecordView>, DecodeError>(t.wal.records),
        parse_log(encode_log(t.wal.records) + encode_frame(torn).take(k)) == Ok::<
            Seq<RecordView>,
            DecodeError,
        >(t.wal.records),
        restorable(t.wal.records, t.synced_lsn, t.wal.capacity),
        replayed(t.batch_size, t.wal.records) == t.batches,
        files_of(
            replayed(t.batch_size, t.wal.records).take(
                flush_count(replayed(t.batch_size, t.wal.records), lsn) as int,
            ),
        ) == files_of(t.batches.take(flush_count(t.batches, lsn) as int)),
{
    lemma_log_round_trip(t.wal.records, torn, k);
}

/// The deletions that a replay of the records leaves: a delete is recorded,
/// not yet visible; a commit marker makes visible, from its LSN on, what was
/// not visible before; an appended row changes nothing.
pub open spec fn pending_deletions(records: Seq<RecordView>) -> Seq<DeletionView>
    decreases records.len(),
{
    if records.len() == 0 {
        Seq::<DeletionView>::empty()
    } else {
        let before = pending_deletions(records.drop_last());
        match records.last() {
            RecordView::Delete(position) => before.push(DeletionView { position, lsn: None }),
            RecordView::Commit(lsn) => tagged(before, lsn),
            RecordView::Append(_) => before,
        }
    }
}

/// Whether the deletes among the records can be replayed behind the settled
/// deletions `base`: each names a row of a data file that is not deleted when
/// its turn comes.
pub open spec fn valid_replay(
    files: Seq<FileView>,
    base: Seq<DeletionView>,
    records: Seq<RecordView>,
) -> bool
    decreases records.len(),
{
    if records.len() == 0 {
        true
    } else {
        &&& valid_replay(files, base, records.drop_last())
        &&& records.last() matches RecordView::Delete(position) ==> in_range(files, position)
            && !is_marked(base + pending_deletions(records.drop_last()), position)
    }
}

/// Deletes that can be replayed can be replayed up to any point.
pub proof fn lemma_valid_replay_prefix(
    files: Seq<FileView>,
    base: Seq<DeletionView>,
    records: Seq<RecordView>,
    k: int,
)
    requires
        0 <= k <= records.len(),
        valid_replay(files, base, records),
    ensures
        valid_replay(files, base, records.take(k)),
    decreases records.len() - k,
{
    if k < records.len() {
        lemma_valid_replay_prefix(files, base, records, k + 1);
        assert(records.take(k + 1).drop_last() =~= records.take(k));
    } else {
        assert(records.take(k) =~= records);
    }
}

/// What the replay of the first records leaves stays in its place, position
/// by position, in what the replay of all the records leaves.
pub proof fn lemma_pending_positions(records: Seq<RecordView>, k: int)
    requires
        0 <= k <= records.len(),
    ensures
        pending_deletions(records.take(k)).len() <= pending_deletions(records).len(),
        forall|i: int|
            0 <= i < pending_deletions(records.take(k)).len() ==> (#[trigger] pending_deletions(
                records.take(k),
            )[i]).position == pending_deletions(records)[i].position,
    decreases records.len() - k,
{
    if k < records.len() {
        lemma_pending_positions(records, k + 1);
        assert(records.take(k + 1).drop_last() =~= records.take(k));
        let here = pending_deletions(records.take(k));
        let next = pending_deletions(records.take(k + 1));
        assert forall|i: int| 0 <= i < here.len() implies (#[trigger] here[i]).position
            == pending_deletions(records)[i].position by {
            assert(here[i].position == next[i].position);
        }
    } else {
        assert(records.take(k) =~= records);
    }
}

/// Deletes that can be replayed behind settled deletions that each name a row
/// of a data file, once, leave deletions that each name a row of a data file,
/// once.
pub proof fn lemma_valid_replay(
    files: Seq<FileView>,
    base: Seq<DeletionView>,
    records: Seq<RecordView>,
)
    requires
        valid_replay(files, base, records),
        forall|i: int| 0 <= i < base.len() ==> in_range(files, (#[trigger] base[i]).position),
        forall|i: int, j: int|
            0 <= i < j < base.len() ==> (#[trigger] base[i]).position != (
            #[trigger] base[j]).position,
    ensures
        forall|i: int|
            0 <= i < (base + pending_deletions(records)).len() ==> in_range(
                files,
                (#[trigger] (base + pending_deletions(records))[i]).position,
            ),
        forall|i: int, j: int|
            0 <= i < j < (base + pending_deletions(records)).len() ==> (#[trigger] (base
                + pending_deletions(records))[i]).position != (#[trigger] (base
                + pending_deletions(records))[j]).position,
    decreases records.len(),
{
    let all = base + pending_deletions(records);
    if records.len() == 0 {
        assert(all =~= base);
    } else {
        let init = records.drop_last();
        lemma_valid_replay(files, base, init);
        let before = base + pending_deletions(init);
        match records.last() {
            RecordView::Delete(position) => {
                assert(all =~= before.push(DeletionView { position, lsn: None }));
                assert forall|i: int, j: int| 0 <= i < j < all.len() implies (
                #[trigger] all[i]).position != (#[trigger] all[j]).position by {
                    if j == before.len() {
                        assert(before[i].position != position);
                    } else {
                        assert(before[i].position != before[j].position);
                    }
                }
            },
            RecordView::Commit(lsn) => {
                assert forall|i: int| 0 <= i < all.len() implies (#[trigger] all[i]).position
                    == before[i].position by {
                    if i >= base.len() {
                        assert(all[i] == tag(pending_deletions(init)[i - base.len()], lsn));
                    }
                }
                assert forall|i: int, j: int| 0 <= i < j < all.len() implies (
                #[trigger] all[i]).position != (#[trigger] all[j]).position by {
                    assert(before[i].position != before[j].position);
                }
                assert forall|i: int| 0 <= i < all.len() implies in_range(
                    files,
                    (#[trigger] all[i]).position,
                ) by {
                    assert(in_range(files, before[i].position));
                }
            },
            RecordView::Append(_) => {
                assert(all =~= before);
            },
        }
    }
}

/// The log of a table can be replayed behind the settled deletions of the
/// table: the deletes that it holds were accepted one after the other.
pub proof fn lemma_own_log_valid(t: TableView, k: int)
    requires
        t.wf(),
        0 <= k <= t.wal.records.len(),
    ensures
        valid_replay(
            t.files,
            t.deletions.take(settled_count(t.deletions, t.synced_lsn) as int),
            t.wal.records.take(k),
        ),
    decreases k,
{
    let n = settled_count(t.deletions, t.synced_lsn) as int;
    lemma_settled_count(t.deletions, t.synced_lsn);
    let base = t.deletions.take(n);
    let records = t.wal.records;
    if k > 0 {
        lemma_own_log_valid(t, k - 1);
        assert(records.take(k).drop_last() =~= records.take(k - 1));
        assert(records.take(k).last() == records[k - 1]);
        if records[k - 1] is Delete {
            let position = records[k - 1]->Delete_0;
            let before = pending_deletions(records.take(k - 1));
            let after = pending_deletions(records.take(k));
            assert(after == before.push(DeletionView { position, lsn: None }));
            lemma_pending_positions(records, k);
            lemma_pending_positions(records, k - 1);
            let all = pending_deletions(records);
            let at = n + before.len();
            assert(t.deletions.skip(n)[before.len() as int] == t.deletions[at]);
            assert(after[before.len() as int].position == position);
            assert(t.deletions[at].position == position);
            assert(in_range(t.files, t.deletions[at].position));
            assert(!is_marked(base + before, position)) by {
                if is_marked(base + before, position) {
                    let i = choose|i: int|
                        0 <= i < (base + before).len() && (#[trigger] (base + before)[i]).position
                            == position;
                    if i < n {
                        assert(t.deletions[i].position == position);
                    } else {
                        assert(t.deletions.skip(n)[i - n] == t.deletions[i]);
                        assert(before[i - n].position == all[i - n].position);
                        assert(t.deletions[i].position == position);
                    }
                    assert(t.deletions[i].position != t.deletions[at].position);
                }
            }
        }
    }
}

/// Whether one of the records is a delete.
pub open spec fn holds_delete(records: Seq<RecordView>) -> bool {
    exists|i: int| 0 <= i < records.len() && (#[trigger] records[i]) is Delete
}

/// The replay of a log without deletes leaves no deletion.
pub proof fn lemma_no_deletes(records: Seq<RecordView>)
    requires
        !holds_delete(records),
    ensures
        pending_deletions(records) == Seq::<DeletionView>::empty(),
    decreases records.len(),
{
    if records.len() > 0 {
        let init = records.drop_last();
        assert(!holds_delete(init)) by {
            if holds_delete(init) {
                let i = choose|i: int| 0 <= i < init.len() && (#[trigger] init[i]) is Delete;
                assert(records[i] is Delete);
            }
        }
        lemma_no_deletes(init);
        assert(!(records[records.len() - 1] is Delete));
        match records.last() {
            RecordView::Commit(lsn) => {
                assert(tagged(pending_deletions(init), lsn) =~= Seq::<DeletionView>::empty());
            },
            _ => {},
        }
    }
}

/// Whether a deletion became visible at or below `synced`.
pub open spec fn settled(deletion: DeletionView, synced: Option<u64>) -> bool {
    deletion.lsn matches Some(at) && synced matches Some(up_to) && at <= up_to
}

/// The number of leading deletions that became visible at or below `synced`.
pub open spec fn settled_count(deletions: Seq<DeletionView>, synced: Option<u64>) -> nat
    decreases deletions.len(),
{
    if deletions.len() == 0 || !settled(deletions.first(), synced) {
        0
    } else {
        1 + settled_count(deletions.drop_first(), synced)
    }
}

/// Where the leading deletions are all settled and none of those behind them
/// is, the settled ones are exactly the leading ones.
pub proof fn lemma_settled_prefix(
    head: Seq<DeletionView>,
    tail: Seq<DeletionView>,
    synced: Option<u64>,
)
    requires
        forall|i: int| 0 <= i < head.len() ==> settled(#[trigger] head[i], synced),
        forall|i: int| 0 <= i < tail.len() ==> !settled(#[trigger] tail[i], synced),
    ensures
        settled_count(head + tail, synced) == head.len(),
    decreases head.len(),
{
    let all = head + tail;
    if head.len() == 0 {
        assert(all =~= tail);
        if tail.len() > 0 {
            assert(!settled(tail[0], synced));
        }
    } else {
        assert(all.first() == head[0]);
        assert(all.drop_first() =~= head.drop_first() + tail);
        assert forall|i: int| 0 <= i < head.drop_first().len() implies settled(
            #[trigger] head.drop_first()[i],
            synced,
        ) by {
            assert(head.drop_first()[i] == head[i + 1]);
        }
        lemma_settled_prefix(head.drop_first(), tail, synced);
    }
}

/// The settled deletions are leading ones, and the first behind them is not
/// settled.
pub proof fn lemma_settled_count(deletions: Seq<DeletionView>, synced: Option<u64>)
    ensures
        settled_count(deletions, synced) <= deletions.len(),
        forall|i: int|
            0 <= i < settled_count(deletions, synced) ==> settled(#[trigger] deletions[i], synced),
        settled_count(deletions, synced) < deletions.len() ==> !settled(
            deletions[settled_count(deletions, synced) as int],
            synced,
        ),
    decreases deletions.len(),
{
    if deletions.len() == 0 || !settled(deletions.first(), synced) {
    } else {
        let rest = deletions.drop_first();
        lemma_settled_count(rest, synced);
        assert forall|i: int| 0 <= i < settled_count(deletions, synced) implies settled(
            #[trigger] deletions[i],
            synced,
        ) by {
            if i > 0 {
                assert(rest[i - 1] == deletions[i]);
            }
        }
        if settled_count(deletions, synced) < deletions.len() {
            assert(rest[settled_count(rest, synced) as int] == deletions[settled_count(
                deletions,
                synced,
            ) as int]);
        }
    }
}

/// Where exactly the first `n` deletions are settled, `n` is the number of
/// settled deletions.
pub proof fn lemma_settled_split(deletions: Seq<DeletionView>, synced: Option<u64>, n: int)
    requires
        0 <= n <= deletions.len(),
        forall|i: int| 0 <= i < n ==> settled(#[trigger] deletions[i], synced),
        forall|i: int| n <= i < deletions.len() ==> !settled(#[trigger] deletions[i], synced),
    ensures
        settled_count(deletions, synced) == n,
{
    let head = deletions.take(n);
    let tail = deletions.skip(n);
    assert(head + tail =~= deletions);
    assert forall|i: int| 0 <= i < tail.len() implies !settled(#[trigger] tail[i], synced) by {
        assert(tail[i] == deletions[i + n]);
    }
    lemma_settled_prefix(head, tail, synced);
}

/// Where the log holds no commit at or below `synced`, no deletion that its
/// replay leaves is settled.
pub proof fn lemma_pending_unsettled(records: Seq<RecordView>, synced: Option<u64>)
    requires
        forall|i: int|
            0 <= i < records.len() ==> ((#[trigger] records[i]) matches RecordView::Commit(at)
                ==> (synced matches Some(up_to) ==> up_to < at)),
    ensures
        forall|i: int|
            0 <= i < pending_deletions(records).len() ==> !settled(
                #[trigger] pending_deletions(records)[i],
                synced,
            ),
{
    lemma_pending_tags(records);
    let all = pending_deletions(records);
    assert forall|i: int| 0 <= i < all.len() implies !settled(#[trigger] all[i], synced) by {
        if all[i].lsn is Some {
            let at = all[i].lsn.unwrap();
            assert(has_marker(records, at));
            let j = choose|j: int|
                0 <= j < records.len() && #[trigger] records[j] == RecordView::Commit(at);
            assert(records[j] matches RecordView::Commit(a) ==> a == at);
        }
    }
}

/// A deletion that a replay leaves visible was made visible by a marker of
/// the log.
pub proof fn lemma_pending_tags(records: Seq<RecordView>)
    ensures
        forall|i: int|
            0 <= i < pending_deletions(records).len() ==> ((
            #[trigger] pending_deletions(records)[i]).lsn matches Some(at) ==> has_marker(
                records,
                at,
            )),
    decreases records.len(),
{
    if records.len() > 0 {
        let init = records.drop_last();
        lemma_pending_tags(init);
        let before = pending_deletions(init);
        let after = pending_deletions(records);
        assert forall|i: int| 0 <= i < after.len() implies ((#[trigger] after[i]).lsn matches Some(
            at,
        ) ==> has_marker(records, at)) by {
            if after[i].lsn is Some {
                let at = after[i].lsn.unwrap();
                if i < before.len() && before[i].lsn == Some(at) {
                    assert(has_marker(init, at));
                    let j = choose|j: int|
                        0 <= j < init.len() && #[trigger] init[j] == RecordView::Commit(at);
                    assert(records[j] == RecordView::Commit(at));
                } else {
                    match records.last() {
                        RecordView::Commit(lsn) => {
                            assert(after[i] == tag(before[i], lsn));
                            assert(records[records.len() - 1] == RecordView::Commit(at));
                        },
                        RecordView::Delete(_) => {
                            if i < before.len() {
                                assert(after[i] == before[i]);
                            }
                        },
                        RecordView::Append(_) => {},
                    }
                }
            }
        }
    }
}

/// Where the first part of a log ends at a commit marker, the replay of the
/// whole log leaves the deletions of the first part, all visible, and behind
/// them what the replay of the second part alone leaves.
pub proof fn lemma_pending_split(first: Seq<RecordView>, second: Seq<RecordView>)
    requires
        forall|i: int|
            0 <= i < pending_deletions(first).len() ==> (#[trigger] pending_deletions(
                first,
            )[i]).lsn is Some,
    ensures
        pending_deletions(first + second) == pending_deletions(first) + pending_deletions(second),
    decreases second.len(),
{
    let head = pending_deletions(first);
    if second.len() == 0 {
        assert(first + second =~= first);
        assert(head + pending_deletions(second) =~= head);
    } else {
        let init = second.drop_last();
        lemma_pending_split(first, init);
        assert((first + second).drop_last() =~= first + init);
        assert((first + second).last() == second.last());
        let tail = pending_deletions(init);
        match second.last() {
            RecordView::Delete(position) => {
                assert((head + tail).push(DeletionView { position, lsn: None }) =~= head
                    + tail.push(DeletionView { position, lsn: None }));
            },
            RecordView::Commit(lsn) => {
                assert forall|i: int| 0 <= i < (head + tail).len() implies tagged(
                    head + tail,
                    lsn,
                )[i] == (head + tagged(tail, lsn))[i] by {
                    if i < head.len() {
                        assert(head[i].lsn is Some);
                        assert(tag(head[i], lsn) == head[i]);
                    } else {
                        assert((head + tail)[i] == tail[i - head.len()]);
                    }
                }
                assert(tagged(head + tail, lsn) =~= head + tagged(tail, lsn));
            },
            RecordView::Append(_) => {},
        }
    }
}

/// The truncation of the log at `lsn` takes from its replay exactly the
/// deletions that the records up to the last commit marker at or below `lsn`
/// left, which are all visible at or below that marker's LSN; what stays was
/// made visible above `lsn`, or not yet.
pub proof fn lemma_pending_truncation(records: Seq<RecordView>, lsn: u64)
    requires
        ordered(records),
    ensures
        ({
            let all = pending_deletions(records);
            let k = cut(records, lsn);
            let head = pending_deletions(records.take(k));
            &&& all == head + pending_deletions(records.skip(k))
            &&& forall|i: int|
                0 <= i < head.len() ==> ((#[trigger] head[i]).lsn matches Some(at) && at <= lsn
                    && has_marker(records, at))
            &&& forall|i: int|
                0 <= i < pending_deletions(records.skip(k)).len() ==> ((
                #[trigger] pending_deletions(records.skip(k))[i]).lsn matches Some(at) ==> lsn
                    < at && has_marker(records, at))
        }),
{
    let k = cut(records, lsn);
    lemma_cut(records, lsn);
    let first = records.take(k);
    let second = records.skip(k);
    assert(first + second =~= records);
    let head = pending_deletions(first);
    let tail = pending_deletions(second);
    lemma_pending_tags(first);
    lemma_pending_tags(second);
    if k > 0 {
        assert(first.last() == records[k - 1]);
        assert(first.drop_last() =~= records.take(k - 1));
    }
    assert forall|i: int| 0 <= i < head.len() implies ((#[trigger] head[i]).lsn matches Some(at)
        && at <= lsn && has_marker(records, at)) by {
        assert(head[i].lsn is Some);
        let at = head[i].lsn.unwrap();
        assert(has_marker(first, at));
        let j = choose|j: int|
            0 <= j < first.len() && #[trigger] first[j] == RecordView::Commit(at);
        assert(records[j] == RecordView::Commit(at));
        if j < k - 1 {
            assert(records[j] matches RecordView::Commit(a) ==> (
            records[k - 1] matches RecordView::Commit(b) ==> a < b));
        }
    }
    assert forall|i: int| 0 <= i < tail.len() implies ((#[trigger] tail[i]).lsn matches Some(at)
        ==> lsn < at && has_marker(records, at)) by {
        if tail[i].lsn is Some {
            let at = tail[i].lsn.unwrap();
            assert(has_marker(second, at));
            let j = choose|j: int|
                0 <= j < second.len() && #[trigger] second[j] == RecordView::Commit(at);
            assert(records[j + k] == RecordView::Commit(at));
        }
    }
    lemma_pending_split(first, second);
}

/// Nothing is committed that the log does not know of. A batch of the buffer
/// that is eligible for flushing is sealed and was committed by a marker that
/// the log holds; and a data file was flushed under a commit that the log had
/// accepted.
pub proof fn lemma_write_ahead(t: TableView)
    requires
        t.wf(),
    ensures
        forall|i: int|
            0 <= i < t.batches.len() && (#[trigger] t.batches[i]).lsn is Some ==> t.batches[i].sealed
                && has_marker(t.wal.records, t.batches[i].lsn.unwrap()),
        forall|i: int|
            0 <= i < t.files.len() ==> t.wal.last_lsn is Some && (#[trigger] t.files[i]).lsn
                <= t.wal.last_lsn.unwrap(),
{
    lemma_replayed_tags(t.batch_size, t.wal.records);
    lemma_replayed_staged(t.batch_size, t.wal.records);
}

/// Whether the batches stand as a replay leaves them: a committed batch is
/// sealed, the committed batches come first, and their LSNs never fall.
pub open spec fn staged(batches: Seq<BatchView>) -> bool {
    &&& forall|i: int|
        0 <= i < batches.len() ==> ((#[trigger] batches[i]).lsn is Some ==> batches[i].sealed)
    &&& forall|i: int, j: int|
        0 <= i < j < batches.len() ==> ((#[trigger] batches[j]).lsn matches Some(b) ==> (
        #[trigger] batches[i]).lsn matches Some(a) && a <= b)
}

/// The replay of a log with increasing commit LSNs leaves the batches staged.
pub proof fn lemma_replayed_staged(batch_size: nat, records: Seq<RecordView>)
    requires
        ordered(records),
    ensures
        staged(replayed(batch_size, records)),
    decreases records.len(),
{
    if records.len() > 0 {
        let init = records.drop_last();
        assert forall|i: int, j: int| 0 <= i < j < init.len() implies ((
        #[trigger] init[i]) matches RecordView::Commit(a) ==> ((
        #[trigger] init[j]) matches RecordView::Commit(b) ==> a < b)) by {
            assert(init[i] == records[i]);
            assert(init[j] == records[j]);
        }
        lemma_replayed_staged(batch_size, init);
        lemma_replayed_tags(batch_size, init);
        let before = replayed(batch_size, init);
        let after = replayed(batch_size, records);
        match records.last() {
            RecordView::Append(row) => {
                if before.len() > 0 && !before.last().sealed {
                    assert(before[before.len() - 1].lsn is None);
                    assert forall|i: int, j: int| 0 <= i < j < after.len() implies ((
                    #[trigger] after[j]).lsn matches Some(b) ==> (
                    #[trigger] after[i]).lsn matches Some(a) && a <= b) by {
                        if j < before.len() - 1 {
                            assert(after[i] == before[i]);
                            assert(after[j] == before[j]);
                        }
                    }
                } else {
                    assert forall|i: int, j: int| 0 <= i < j < after.len() implies ((
                    #[trigger] after[j]).lsn matches Some(b) ==> (
                    #[trigger] after[i]).lsn matches Some(a) && a <= b) by {
                        if j < before.len() {
                            assert(after[i] == before[i]);
                            assert(after[j] == before[j]);
                        }
                    }
                }
            },
            RecordView::Commit(lsn) => {
                assert forall|i: int, j: int| 0 <= i < j < after.len() implies ((
                #[trigger] after[j]).lsn matches Some(b) ==> (
                #[trigger] after[i]).lsn matches Some(a) && a <= b) by {
                    assert(after[i] == commit_batch(before[i], lsn));
                    assert(after[j] == commit_batch(before[j], lsn));
                    if before[i].lsn is Some {
                        let a = before[i].lsn.unwrap();
                        assert(has_marker(init, a));
                        let k = choose|k: int|
                            0 <= k < init.len() && #[trigger] init[k] == RecordView::Commit(a);
                        assert(records[k] == RecordView::Commit(a));
                        assert(records[records.len() - 1] == RecordView::Commit(lsn));
                    }
                    if before[j].lsn is Some {
                        assert(before[i].lsn is Some);
                    }
                }
            },
            RecordView::Delete(_) => {},
        }
    }
}

} // verus!
