//! Snapshots: the data files and the deletions of a table as they are visible
//! at one LSN. The containers that hold the deletion vectors of a snapshot
//! are pinned in the cache until the snapshot is released.

use crate::buffer::{DataFile, FileView};
use crate::cache::{
    cache_path, lemma_acquired, lemma_released, remote_size, CacheError, CacheView,
    NonEvictableHandle, ObjectStorageCache,
};
use crate::position::{DeletionVectorRef, PositionDelete};
use crate::deletion_vector::parse_blob;
use crate::puffin::{blob_at, PuffinStore};
use crate::text::{decimal_digits, push_decimal};
use crate::sync::{deleted_up_to, vector_ok, vectors_ok, visible, StoredVector};
use crate::table::{deletions_view, Deletion, DeletionView};
use vstd::prelude::*;
use vstd::string::*;

verus! {

/// The path of data file number `number` of a table that keeps its files in
/// `root`.
pub open spec fn data_path(root: Seq<char>, number: int) -> Seq<char> {
    root + seq!['/', 'd', 'a', 't', 'a', '-'] + decimal_digits(number as nat) + seq![
        '.',
        'p',
        'a',
        'r',
        'q',
        'u',
        'e',
        't',
    ]
}

/// One data file of a snapshot: its number in the snapshot's file list, its
/// path, and the number of its rows.
#[derive(Debug)]
pub struct DataFileForRead {
    file_number: usize,
    path: String,
    row_count: usize,
}

impl DataFileForRead {
    /// The number of the file in the snapshot's file list.
    pub closed spec fn number(&self) -> int {
        self.file_number as int
    }

    /// The path of the file.
    pub closed spec fn path(&self) -> Seq<char> {
        self.path@
    }

    /// The number of rows of the file.
    pub closed spec fn rows(&self) -> int {
        self.row_count as int
    }

    /// The number of the file in the snapshot's file list.
    pub fn get_file_number(&self) -> (n: usize)
        ensures
            n == self.number(),
    {
        self.file_number
    }

    /// The path of the file.
    pub fn get_file_path(&self) -> (path: String)
        ensures
            path@ == self.path(),
    {
        self.path.clone()
    }

    /// The number of rows of the file.
    pub fn get_row_count(&self) -> (n: usize)
        ensures
            n == self.rows(),
    {
        self.row_count
    }
}

/// The paths of the data files, in order.
pub fn get_data_files_for_read(data_file_paths: &[DataFileForRead]) -> (paths: Vec<String>)
    ensures
        paths@.len() == data_file_paths@.len(),
        forall|i: int| 0 <= i < paths@.len() ==> (#[trigger] paths@[i])@ == data_file_paths@[i].path(),
{
    let mut paths: Vec<String> = Vec::new();
    let mut i: usize = 0;
    while i < data_file_paths.len()
        invariant
            i <= data_file_paths.len(),
            paths@.len() == i,
            forall|k: int| 0 <= k < i ==> (#[trigger] paths@[k])@ == data_file_paths@[k].path(),
        decreases data_file_paths.len() - i,
    {
        paths.push(data_file_paths[i].get_file_path());
        i += 1;
    }
    paths
}

/// The local paths of the pinned containers, in order.
pub fn get_deletion_puffin_files_for_read(deletion_vector_puffins: &[NonEvictableHandle]) -> (paths:
    Vec<String>)
    ensures
        paths@.len() == deletion_vector_puffins@.len(),
        forall|i: int|
            0 <= i < paths@.len() ==> (#[trigger] paths@[i])@ == deletion_vector_puffins@[i].path(),
{
    let mut paths: Vec<String> = Vec::new();
    let mut i: usize = 0;
    while i < deletion_vector_puffins.len()
        invariant
            i <= deletion_vector_puffins.len(),
            paths@.len() == i,
            forall|k: int|
                0 <= k < i ==> (#[trigger] paths@[k])@ == deletion_vector_puffins@[k].path(),
        decreases deletion_vector_puffins.len() - i,
    {
        paths.push(String::from_str(deletion_vector_puffins[i].get_cache_filepath()));
        i += 1;
    }
    paths
}

/// The number of data files visible at `lsn`: the leading files flushed under
/// a commit at or below `lsn`.
pub open spec fn visible_files(files: Seq<FileView>, lsn: u64) -> nat
    decreases files.len(),
{
    if files.len() == 0 || files.first().lsn > lsn {
        0
    } else {
        1 + visible_files(files.drop_first(), lsn)
    }
}

/// Where the files stand in the order of their commits, the files visible at
/// `lsn` are all the files committed at or below `lsn`.
pub proof fn lemma_visible_files(files: Seq<FileView>, lsn: u64)
    requires
        forall|i: int, j: int|
            0 <= i < j < files.len() ==> (#[trigger] files[i]).lsn <= (#[trigger] files[j]).lsn,
    ensures
        visible_files(files, lsn) <= files.len(),
        forall|i: int|
            0 <= i < files.len() ==> ((#[trigger] files[i]).lsn <= lsn <==> i < visible_files(
                files,
                lsn,
            )),
    decreases files.len(),
{
    if files.len() == 0 {
    } else if files.first().lsn > lsn {
        assert forall|i: int| 0 <= i < files.len() implies (#[trigger] files[i]).lsn > lsn by {
            if i > 0 {
                assert(files[0].lsn <= files[i].lsn);
            }
        }
    } else {
        let rest = files.drop_first();
        assert forall|i: int, j: int| 0 <= i < j < rest.len() implies (#[trigger] rest[i]).lsn <= (
        #[trigger] rest[j]).lsn by {
            assert(files[i + 1].lsn <= files[j + 1].lsn);
        }
        lemma_visible_files(rest, lsn);
        assert forall|i: int| 0 <= i < files.len() implies ((#[trigger] files[i]).lsn <= lsn <==> i
            < visible_files(files, lsn)) by {
            if i > 0 {
                assert(rest[i - 1] == files[i]);
            }
        }
    }
}

/// The LSN up to which a snapshot at `lsn` takes the deletions from the
/// persisted deletion vectors: the LSN up to which the table is flushed where
/// that is at or below `lsn`, none else.
pub open spec fn base_of(synced: Option<u64>, lsn: u64) -> Option<u64> {
    if synced matches Some(at) && at <= lsn {
        synced
    } else {
        None
    }
}

/// The function that shows the position of a deletion that became visible
/// above `after` and at or below `lsn`, and hides every other deletion.
pub open spec fn shown(after: Option<u64>, lsn: u64) -> spec_fn(DeletionView) -> Option<
    PositionDelete,
> {
    |deletion: DeletionView|
        if deletion.lsn matches Some(at) && at <= lsn && (after matches Some(before) ==> before
            < at) {
            Some(deletion.position)
        } else {
            None
        }
}

/// The position deletes of a snapshot at `lsn`: the deletions that became
/// visible above `after` and at or below `lsn`, in the order of their deletion.
pub open spec fn position_deletes_at(
    deletions: Seq<DeletionView>,
    after: Option<u64>,
    lsn: u64,
) -> Seq<PositionDelete> {
    deletions.filter_map(shown(after, lsn))
}

/// A deletion that is shown is among the position deletes.
pub proof fn lemma_shown_listed(
    deletions: Seq<DeletionView>,
    after: Option<u64>,
    lsn: u64,
    i: int,
)
    requires
        0 <= i < deletions.len(),
        shown(after, lsn)(deletions[i]) is Some,
    ensures
        position_deletes_at(deletions, after, lsn).contains(deletions[i].position),
    decreases deletions.len(),
{
    let init = deletions.drop_last();
    let listed = position_deletes_at(deletions, after, lsn);
    let before = position_deletes_at(init, after, lsn);
    if i == deletions.len() - 1 {
        assert(listed == before + seq![deletions[i].position]);
        assert(listed[before.len() as int] == deletions[i].position);
    } else {
        lemma_shown_listed(init, after, lsn, i);
        let at = choose|at: int| 0 <= at < before.len() && before[at] == init[i].position;
        match shown(after, lsn)(deletions.last()) {
            Some(position) => {
                assert(listed == before + seq![position]);
                assert(listed[at] == before[at]);
            },
            None => {},
        }
    }
}

/// What a snapshot shows as deleted is what is deleted: a row of a data file
/// has a deletion visible at `lsn` exactly where the persisted deletion vector
/// that the snapshot refers to holds it, or the position deletes of the
/// snapshot do.
pub proof fn lemma_snapshot_deletions(
    deletions: Seq<DeletionView>,
    synced: Option<u64>,
    lsn: u64,
    file: u32,
    row: u32,
)
    ensures
        crate::sync::deleted_offsets(deletions, file as int, lsn).contains(row) <==> (deleted_up_to(
            deletions,
            file as int,
            base_of(synced, lsn),
        ).contains(row) || position_deletes_at(deletions, base_of(synced, lsn), lsn).contains(
            PositionDelete { data_file_number: file, data_file_row_number: row },
        )),
{
    let base = base_of(synced, lsn);
    let position = PositionDelete { data_file_number: file, data_file_row_number: row };
    let pending = position_deletes_at(deletions, base, lsn);
    if crate::sync::deleted_offsets(deletions, file as int, lsn).contains(row) {
        let i = choose|i: int|
            0 <= i < deletions.len() && visible(#[trigger] deletions[i], file as int, lsn)
                && deletions[i].position.data_file_row_number == row;
        if base is Some && visible(deletions[i], file as int, base.unwrap()) {
        } else {
            lemma_shown_listed(deletions, base, lsn, i);
        }
    }
    if base is Some && deleted_up_to(deletions, file as int, base).contains(row) {
        let i = choose|i: int|
            0 <= i < deletions.len() && visible(#[trigger] deletions[i], file as int, base.unwrap())
                && deletions[i].position.data_file_row_number == row;
        assert(visible(deletions[i], file as int, lsn));
    }
    if pending.contains(position) {
        deletions.lemma_filter_map_contains(shown(base, lsn), position);
        let d = choose|d: DeletionView| #[trigger]
            deletions.contains(d) && shown(base, lsn)(d) == Some(position);
        let i = choose|i: int| 0 <= i < deletions.len() && deletions[i] == d;
        assert(visible(deletions[i], file as int, lsn));
    }
}

/// A snapshot at the LSN up to which the table is flushed has no position
/// delete: every deletion visible at that LSN is in a persisted vector.
pub proof fn lemma_nothing_pending(deletions: Seq<DeletionView>, lsn: u64)
    ensures
        position_deletes_at(deletions, Some(lsn), lsn) == Seq::<PositionDelete>::empty(),
    decreases deletions.len(),
{
    if deletions.len() > 0 {
        lemma_nothing_pending(deletions.drop_last(), lsn);
    }
}

/// A table without deletions has no persisted deletion vector: a snapshot of
/// it refers to none and pins no container.
pub proof fn lemma_no_deletions_no_vectors(
    files: Seq<FileView>,
    deletions: Seq<DeletionView>,
    synced: Option<u64>,
    vectors: Seq<Option<StoredVector>>,
    store: Seq<Seq<u8>>,
    k: int,
)
    requires
        vectors_ok(files, deletions, synced, vectors, store),
        deletions.len() == 0,
        0 <= k <= vectors.len(),
    ensures
        vector_ids(vectors.take(k)) == Seq::<u64>::empty(),
        vector_refs(vectors.take(k)) == Seq::<DeletionVectorRef>::empty(),
    decreases k,
{
    if k > 0 {
        lemma_no_deletions_no_vectors(files, deletions, synced, vectors, store, k - 1);
        assert(vectors.take(k).drop_last() =~= vectors.take(k - 1));
        assert(vectors.take(k).last() == vectors[k - 1]);
        if vectors[k - 1] is Some {
            lemma_vector_file_fits(files, deletions, synced, vectors, store, k - 1);
            let synced_at = synced.unwrap();
            let deleted = deleted_up_to(deletions, k - 1, synced);
            assert(vector_ok(files[k - 1], deleted, vectors[k - 1], store));
            let at = vectors[k - 1].unwrap();
            let blob = blob_at(store[at.puffin_id as int], at.offset, at.size).unwrap();
            let read = parse_blob(blob)->Ok_0;
            assert(read.1.to_set().contains(read.1[0]));
            assert(deleted.contains(read.1[0]));
        }
    }
}

/// The containers that hold the persisted deletion vectors, one for each data
/// file that has one, in file order.
pub open spec fn vector_ids(vectors: Seq<Option<StoredVector>>) -> Seq<u64>
    decreases vectors.len(),
{
    if vectors.len() == 0 {
        Seq::<u64>::empty()
    } else {
        let init = vector_ids(vectors.drop_last());
        match vectors.last() {
            Some(at) => init.push(at.puffin_id),
            None => init,
        }
    }
}

/// The references to the persisted deletion vectors, one for each data file
/// that has one, in file order; the container of each is named by the place of
/// its handle in the snapshot's list of handles.
pub open spec fn vector_refs(vectors: Seq<Option<StoredVector>>) -> Seq<DeletionVectorRef>
    decreases vectors.len(),
{
    if vectors.len() == 0 {
        Seq::<DeletionVectorRef>::empty()
    } else {
        let init = vector_refs(vectors.drop_last());
        match vectors.last() {
            Some(at) => init.push(
                DeletionVectorRef {
                    data_file_number: (vectors.len() - 1) as u32,
                    puffin_file_number: init.len() as u32,
                    offset: at.offset,
                    size: at.size,
                },
            ),
            None => init,
        }
    }
}

/// There are as many references as containers to pin, and no more than files.
pub proof fn lemma_vector_refs_len(vectors: Seq<Option<StoredVector>>)
    ensures
        vector_refs(vectors).len() == vector_ids(vectors).len(),
        vector_ids(vectors).len() <= vectors.len(),
    decreases vectors.len(),
{
    if vectors.len() > 0 {
        lemma_vector_refs_len(vectors.drop_last());
    }
}

/// The cache after the containers are pinned one after the other.
pub open spec fn pinned_all(cache: CacheView, ids: Seq<u64>, store: Seq<Seq<u8>>) -> CacheView
    decreases ids.len(),
{
    if ids.len() == 0 {
        cache
    } else {
        pinned_all(cache, ids.drop_last(), store).acquired(
            ids.last(),
            remote_size(store, ids.last()),
        )
    }
}

/// Whether pinning the containers one after the other fails at one of them.
pub open spec fn pin_fault(cache: CacheView, ids: Seq<u64>, store: Seq<Seq<u8>>) -> bool
    decreases ids.len(),
{
    if ids.len() == 0 {
        false
    } else {
        pin_fault(cache, ids.drop_last(), store) || pinned_all(
            cache,
            ids.drop_last(),
            store,
        ).acquire_fault(ids.last(), remote_size(store, ids.last())).is_some()
    }
}

/// The cache after the pins on the containers are given back, the last one
/// first.
pub open spec fn released_all(cache: CacheView, ids: Seq<u64>) -> CacheView
    decreases ids.len(),
{
    if ids.len() == 0 {
        cache
    } else {
        released_all(cache.released(ids.last()), ids.drop_last())
    }
}

/// Pinning keeps the invariant of the cache.
pub proof fn lemma_pinned_all_wf(cache: CacheView, ids: Seq<u64>, store: Seq<Seq<u8>>)
    requires
        cache.wf(),
    ensures
        pinned_all(cache, ids, store).wf(),
    decreases ids.len(),
{
    if ids.len() > 0 {
        lemma_pinned_all_wf(cache, ids.drop_last(), store);
        lemma_acquired(
            pinned_all(cache, ids.drop_last(), store),
            ids.last(),
            remote_size(store, ids.last()),
        );
    }
}

/// What a snapshot refers to is held locally: where the containers could all
/// be pinned, each of them is cached afterwards and has a pin.
pub proof fn lemma_pinned_all_cached(cache: CacheView, ids: Seq<u64>, store: Seq<Seq<u8>>, k: int)
    requires
        cache.wf(),
        !pin_fault(cache, ids, store),
        0 <= k < ids.len(),
    ensures
        pinned_all(cache, ids, store).contains(ids[k]),
        pinned_all(cache, ids, store).pins(ids[k]) >= 1,
    decreases ids.len(),
{
    let init = ids.drop_last();
    let before = pinned_all(cache, init, store);
    lemma_pinned_all_wf(cache, init, store);
    lemma_pinned_all_wf(cache, ids, store);
    lemma_acquired(before, ids.last(), remote_size(store, ids.last()));
    if k < ids.len() - 1 {
        lemma_pinned_all_cached(cache, init, store, k);
        assert(init[k] == ids[k]);
    }
}

/// A fault among the first containers is a fault among all.
pub proof fn lemma_pin_fault_prefix(cache: CacheView, ids: Seq<u64>, k: int, store: Seq<Seq<u8>>)
    requires
        0 <= k <= ids.len(),
        pin_fault(cache, ids.take(k), store),
    ensures
        pin_fault(cache, ids, store),
    decreases ids.len() - k,
{
    if k < ids.len() {
        assert(ids.take(k + 1).drop_last() =~= ids.take(k));
        lemma_pin_fault_prefix(cache, ids, k + 1, store);
    } else {
        assert(ids.take(k) =~= ids);
    }
}

/// A snapshot that is released leaves no pin behind: where the containers
/// could all be pinned, giving the pins back leaves every container with the
/// pins it had before.
pub proof fn lemma_release_undoes_pins(
    cache: CacheView,
    ids: Seq<u64>,
    store: Seq<Seq<u8>>,
    id: u64,
)
    requires
        cache.wf(),
        !pin_fault(cache, ids, store),
    ensures
        released_all(pinned_all(cache, ids, store), ids).pins(id) == cache.pins(id),
    decreases ids.len(),
{
    if ids.len() > 0 {
        let init = ids.drop_last();
        let before = pinned_all(cache, init, store);
        let after = pinned_all(cache, ids, store);
        lemma_pinned_all_wf(cache, init, store);
        lemma_pinned_all_wf(cache, ids, store);
        lemma_acquired(before, ids.last(), remote_size(store, ids.last()));
        lemma_released(after, ids.last());
        let back = after.released(ids.last());
        assert forall|other: u64| back.pins(other) == before.pins(other) by {}
        lemma_release_undoes_pins(cache, init, store, id);
        lemma_released_all_same_pins(back, before, init, id);
    }
}

/// Two caches in which every container has the same pins have the same pins
/// after the same pins are given back.
pub proof fn lemma_released_all_same_pins(a: CacheView, b: CacheView, ids: Seq<u64>, id: u64)
    requires
        a.wf(),
        b.wf(),
        forall|other: u64| a.pins(other) == b.pins(other),
    ensures
        released_all(a, ids).pins(id) == released_all(b, ids).pins(id),
    decreases ids.len(),
{
    if ids.len() > 0 {
        lemma_released(a, ids.last());
        lemma_released(b, ids.last());
        let a1 = a.released(ids.last());
        let b1 = b.released(ids.last());
        assert forall|other: u64| a1.pins(other) == b1.pins(other) by {
            assert(a.pins(other) == b.pins(other));
        }
        lemma_released_all_same_pins(a1, b1, ids.drop_last(), id);
    }
}

/// The table as visible at one LSN.
#[derive(Debug)]
pub struct Snapshot {
    /// The LSN that the snapshot stands for.
    pub lsn: u64,
    /// The data files, in the order of their flushing.
    pub data_files: Vec<DataFileForRead>,
    /// The handles on the containers of the deletion vectors.
    pub puffin_cache_handles: Vec<NonEvictableHandle>,
    /// Where the deletion vectors lie.
    pub deletion_vectors: Vec<DeletionVectorRef>,
    /// The deletions that are in no deletion vector yet.
    pub position_deletes: Vec<PositionDelete>,
}

pub(crate) fn collect_position_deletes(deletions: &Vec<Deletion>, after: Option<u64>, lsn: u64) -> (out: Vec<
    PositionDelete,
>)
    ensures
        out@ == position_deletes_at(deletions_view(deletions@), after, lsn),
{
    let ghost all = deletions_view(deletions@);
    let mut out: Vec<PositionDelete> = Vec::new();
    let mut i: usize = 0;
    while i < deletions.len()
        invariant
            i <= deletions.len(),
            all == deletions_view(deletions@),
            out@ == position_deletes_at(all.take(i as int), after, lsn),
        decreases deletions.len() - i,
    {
        proof {
            all.lemma_filter_map_take_succ(shown(after, lsn), i as int);
        }
        let deletion = deletions[i];
        let show = match deletion.lsn {
            Some(at) => at <= lsn && match after {
                Some(before) => before < at,
                None => true,
            },
            None => false,
        };
        if show {
            out.push(deletion.position);
        }
        assert(all[i as int] == deletion@);
        assert(out@ =~= position_deletes_at(all.take(i + 1), after, lsn));
        i += 1;
    }
    assert(all.take(i as int) =~= all);
    out
}

pub(crate) fn collect_refs(vectors: &Vec<Option<StoredVector>>) -> (out: (Vec<DeletionVectorRef>, Vec<u64>))
    requires
        forall|f: int| 0 <= f < vectors@.len() && (#[trigger] vectors@[f]) is Some ==> f <= u32::MAX,
    ensures
        out.0@ == vector_refs(vectors@),
        out.1@ == vector_ids(vectors@),
{
    let mut refs: Vec<DeletionVectorRef> = Vec::new();
    let mut ids: Vec<u64> = Vec::new();
    let mut f: usize = 0;
    while f < vectors.len()
        invariant
            f <= vectors.len(),
            forall|g: int|
                0 <= g < vectors@.len() && (#[trigger] vectors@[g]) is Some ==> g <= u32::MAX,
            refs@ == vector_refs(vectors@.take(f as int)),
            ids@ == vector_ids(vectors@.take(f as int)),
        decreases vectors.len() - f,
    {
        proof {
            assert(vectors@.take(f + 1).drop_last() =~= vectors@.take(f as int));
            lemma_vector_refs_len(vectors@.take(f as int));
        }
        match vectors[f] {
            Some(at) => {
                refs.push(
                    DeletionVectorRef {
                        data_file_number: f as u32,
                        puffin_file_number: refs.len() as u32,
                        offset: at.offset,
                        size: at.size,
                    },
                );
                ids.push(at.puffin_id);
            },
            None => {},
        }
        f += 1;
    }
    assert(vectors@.take(f as int) =~= vectors@);
    (refs, ids)
}

/// Pins the containers one after the other. Where one cannot be pinned, the
/// pins taken so far are given back.
pub(crate) fn pin_all(cache: &mut ObjectStorageCache, store: &PuffinStore, ids: &Vec<u64>) -> (got: Result<
    Vec<NonEvictableHandle>,
    CacheError,
>)
    requires
        old(cache).wf(),
    ensures
        final(cache).wf(),
        final(cache).root() == old(cache).root(),
        match got {
            Ok(handles) => {
                &&& !pin_fault(old(cache)@, ids@, store@)
                &&& final(cache)@ == pinned_all(old(cache)@, ids@, store@)
                &&& handles@.len() == ids@.len()
                &&& forall|k: int|
                    0 <= k < handles@.len() ==> (#[trigger] handles@[k]).file_id() == ids@[k]
                        && handles@[k].path() == cache_path(old(cache).root(), ids@[k])
            },
            Err(_) => {
                &&& pin_fault(old(cache)@, ids@, store@)
                &&& forall|id: u64| final(cache)@.pins(id) == old(cache)@.pins(id)
            },
        },
{
    let ghost start = cache@;
    let mut handles: Vec<NonEvictableHandle> = Vec::new();
    let mut k: usize = 0;
    let mut failed: Option<CacheError> = None;
    assert(ids@.take(0) =~= Seq::<u64>::empty());
    while k < ids.len() && failed.is_none()
        invariant
            k <= ids.len(),
            start.wf(),
            cache.wf(),
            cache.root() == old(cache).root(),
            failed.is_none() ==> {
                &&& !pin_fault(start, ids@.take(k as int), store@)
                &&& cache@ == pinned_all(start, ids@.take(k as int), store@)
                &&& handles@.len() == k
            },
            failed.is_some() ==> {
                &&& k > 0
                &&& pin_fault(start, ids@.take(k as int), store@)
                &&& !pin_fault(start, ids@.take(k - 1), store@)
                &&& cache@ == pinned_all(start, ids@.take(k - 1), store@)
                &&& handles@.len() == k - 1
            },
            forall|j: int|
                0 <= j < handles@.len() ==> (#[trigger] handles@[j]).file_id() == ids@[j]
                    && handles@[j].path() == cache_path(old(cache).root(), ids@[j]),
        decreases ids.len() - k,
    {
        assert(ids@.take(k + 1).drop_last() =~= ids@.take(k as int));
        match cache.get_or_fetch(ids[k], store) {
            Ok(handle) => {
                handles.push(handle);
            },
            Err(fault) => {
                failed = Some(fault);
            },
        }
        k += 1;
    }
    match failed {
        None => {
            assert(ids@.take(k as int) =~= ids@);
            Ok(handles)
        },
        Some(fault) => {
            proof {
                lemma_pin_fault_prefix(start, ids@, k as int, store@);
            }
            while handles.len() > 0
                invariant
                    handles@.len() <= ids@.len(),
                    start.wf(),
                    cache.wf(),
                    cache.root() == old(cache).root(),
                    !pin_fault(start, ids@.take(handles@.len() as int), store@),
                    forall|id: u64|
                        cache@.pins(id) == pinned_all(
                            start,
                            ids@.take(handles@.len() as int),
                            store@,
                        ).pins(id),
                    forall|j: int|
                        0 <= j < handles@.len() ==> (#[trigger] handles@[j]).file_id() == ids@[j],
                decreases handles.len(),
            {
                let ghost n = handles@.len() as int;
                let ghost held = cache@;
                let ghost id = ids@[n - 1];
                assert(handles@[n - 1].file_id() == id);
                let handle = handles.pop().unwrap();
                let ghost before = pinned_all(start, ids@.take(n - 1), store@);
                proof {
                    assert(ids@.take(n).drop_last() =~= ids@.take(n - 1));
                    assert(ids@.take(n).last() == id);
                    lemma_pinned_all_wf(start, ids@.take(n - 1), store@);
                    lemma_acquired(before, id, remote_size(store@, id));
                    lemma_released(held, id);
                    assert(held.pins(id) == before.pins(id) + 1);
                }
                cache.release(handle);
                assert forall|other: u64| cache@.pins(other) == before.pins(other) by {
                    assert(held.pins(other) == before.acquired(
                        id,
                        remote_size(store@, id),
                    ).pins(other));
                }
            }
            assert(ids@.take(0) =~= Seq::<u64>::empty());
            Err(fault)
        },
    }
}

/// A data file has a persisted deletion vector only where a deletion names
/// it, so its number fits in the 32 bits of a position.
pub proof fn lemma_vector_file_fits(
    files: Seq<FileView>,
    deletions: Seq<DeletionView>,
    synced: Option<u64>,
    vectors: Seq<Option<StoredVector>>,
    store: Seq<Seq<u8>>,
    f: int,
)
    requires
        vectors_ok(files, deletions, synced, vectors, store),
        0 <= f < vectors.len(),
        vectors[f] is Some,
    ensures
        f <= u32::MAX,
        synced is Some,
{
    let deleted = deleted_up_to(deletions, f, synced);
    assert(vector_ok(files[f], deleted, vectors[f], store));
    let at = vectors[f].unwrap();
    let blob = blob_at(store[at.puffin_id as int], at.offset, at.size).unwrap();
    let read = parse_blob(blob)->Ok_0;
    assert(read.1.to_set().contains(read.1[0]));
    assert(deleted.contains(read.1[0]));
}

pub(crate) fn release_all(cache: &mut ObjectStorageCache, handles: Vec<NonEvictableHandle>)
    requires
        old(cache).wf(),
    ensures
        final(cache).wf(),
        final(cache).root() == old(cache).root(),
        final(cache)@ == released_all(
            old(cache)@,
            Seq::new(handles@.len(), |k: int| handles@[k].file_id()),
        ),
{
    let ghost ids = Seq::new(handles@.len(), |k: int| handles@[k].file_id());
    let mut rest = handles;
    assert(ids.take(ids.len() as int) =~= ids);
    while rest.len() > 0
        invariant
            rest@.len() <= ids.len(),
            cache.wf(),
            cache.root() == old(cache).root(),
            forall|k: int| 0 <= k < rest@.len() ==> (#[trigger] rest@[k]).file_id() == ids[k],
            released_all(cache@, ids.take(rest@.len() as int)) == released_all(old(cache)@, ids),
        decreases rest.len(),
    {
        let ghost n = rest@.len() as int;
        let handle = rest.pop().unwrap();
        assert(ids.take(n).drop_last() =~= ids.take(n - 1));
        assert(ids.take(n).last() == ids[n - 1]);
        cache.release(handle);
    }
    assert(ids.take(0) =~= Seq::<u64>::empty());
}

pub(crate) fn list_files(files: &Vec<DataFile>, root: &String, lsn: u64) -> (out: Vec<DataFileForRead>)
    ensures
        out@.len() == visible_files(crate::buffer::files_view(files@), lsn),
        forall|i: int|
            0 <= i < out@.len() ==> {
                &&& (#[trigger] out@[i]).number() == i
                &&& out@[i].path() == data_path(root@, i)
                &&& out@[i].rows() == crate::buffer::files_view(files@)[i].rows.len()
            },
{
    let ghost all = crate::buffer::files_view(files@);
    let mut out: Vec<DataFileForRead> = Vec::new();
    let mut i: usize = 0;
    assert(all.skip(0) =~= all);
    while i < files.len() && files[i].lsn() <= lsn
        invariant
            i <= files.len(),
            all == crate::buffer::files_view(files@),
            out@.len() == i,
            visible_files(all, lsn) == i + visible_files(all.skip(i as int), lsn),
            forall|k: int|
                0 <= k < i ==> {
                    &&& (#[trigger] out@[k]).number() == k
                    &&& out@[k].path() == data_path(root@, k)
                    &&& out@[k].rows() == all[k].rows.len()
                },
        decreases files.len() - i,
    {
        proof {
            reveal_strlit("/data-");
            reveal_strlit(".parquet");
            assert(all.skip(i as int).drop_first() =~= all.skip(i + 1));
            assert(all.skip(i as int).first() == all[i as int]);
        }
        let mut path = root.clone();
        path.append("/data-");
        push_decimal(&mut path, i as u64);
        path.append(".parquet");
        assert(path@ =~= data_path(root@, i as int));
        out.push(DataFileForRead { file_number: i, path, row_count: files[i].row_count() });
        i += 1;
    }
    proof {
        if i < files.len() {
            assert(all.skip(i as int).first() == all[i as int]);
        }
    }
    out
}

} // verus!
