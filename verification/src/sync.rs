//! The persisted deletion vectors of a table: for each data file that has
//! deleted rows, the blob of its deletion vector in a container of the store,
//! kept up to the LSN to which the table is flushed.

use crate::buffer::{files_view, reachable_rows, DataFile, FileView};
use crate::deletion_vector::{lemma_blob_round_trip, parse_blob, DeletionVector};
use crate::puffin::{blob_at, lemma_blobs_independent, PuffinFile, PuffinStore};
use crate::table::{deletions_view, in_range, Deletion, DeletionView};
use vstd::prelude::*;

verus! {

/// Whether a deletion removes a row of file number `file` and is visible at
/// `lsn`.
pub open spec fn visible(deletion: DeletionView, file: int, lsn: u64) -> bool {
    &&& deletion.position.data_file_number == file
    &&& deletion.lsn matches Some(at) && at <= lsn
}

/// The offsets of the rows of file number `file` whose deletion is visible at
/// `lsn`.
pub open spec fn deleted_offsets(deletions: Seq<DeletionView>, file: int, lsn: u64) -> Set<u32> {
    Set::new(
        |row: u32|
            exists|i: int|
                0 <= i < deletions.len() && visible(#[trigger] deletions[i], file, lsn)
                    && deletions[i].position.data_file_row_number == row,
    )
}

/// The offsets of the rows of file number `file` whose deletion is visible at
/// `lsn`, where no LSN is given: none.
pub open spec fn deleted_up_to(deletions: Seq<DeletionView>, file: int, lsn: Option<u64>) -> Set<
    u32,
> {
    match lsn {
        Some(lsn) => deleted_offsets(deletions, file, lsn),
        None => Set::<u32>::empty(),
    }
}

/// Whether a deletion of a row of file number `file` became visible above
/// `after` and at or below `lsn`.
pub open spec fn fresh(deletion: DeletionView, file: int, after: Option<u64>, lsn: u64) -> bool {
    &&& visible(deletion, file, lsn)
    &&& after matches Some(before) ==> !visible(deletion, file, before)
}

/// Whether one of the deletions is fresh.
pub open spec fn has_fresh(
    deletions: Seq<DeletionView>,
    file: int,
    after: Option<u64>,
    lsn: u64,
) -> bool {
    exists|i: int| 0 <= i < deletions.len() && fresh(#[trigger] deletions[i], file, after, lsn)
}

/// Where the deletion vector of a data file lies: the container by its index
/// in the store, the blob by its first byte and its length in the container.
#[derive(Clone, Copy, Debug, PartialEq, Eq, Structural)]
pub struct StoredVector {
    pub puffin_id: u64,
    pub offset: u64,
    pub size: u64,
}

/// Whether what is persisted for one data file is right: nothing where no
/// deletion of a row of it is visible at `synced`; else a blob of the store
/// that reads as the deletion vector of the file with exactly the rows whose
/// deletion is visible at `synced`.
pub open spec fn vector_ok(
    file: FileView,
    deleted: Set<u32>,
    vector: Option<StoredVector>,
    store: Seq<Seq<u8>>,
) -> bool {
    match vector {
        None => deleted == Set::<u32>::empty(),
        Some(at) => {
            &&& at.puffin_id < store.len()
            &&& blob_at(store[at.puffin_id as int], at.offset, at.size) matches Some(blob)
                && parse_blob(blob) matches Ok(read) && read.0 == reachable_rows(file)
                && read.1.len() > 0 && read.1.to_set() == deleted
        },
    }
}

/// Whether what is persisted is right for every data file.
pub open spec fn vectors_ok(
    files: Seq<FileView>,
    deletions: Seq<DeletionView>,
    synced: Option<u64>,
    vectors: Seq<Option<StoredVector>>,
    store: Seq<Seq<u8>>,
) -> bool {
    &&& vectors.len() == files.len()
    &&& forall|f: int|
        0 <= f < files.len() ==> vector_ok(
            files[f],
            deleted_up_to(deletions, f, synced),
            #[trigger] vectors[f],
            store,
        )
}

/// Deletions that are not visible at `lsn` do not count at `lsn`: two lists of
/// deletions that differ in such deletions only have the same rows deleted.
pub proof fn lemma_same_deleted(
    a: Seq<DeletionView>,
    b: Seq<DeletionView>,
    file: int,
    lsn: u64,
)
    requires
        forall|i: int|
            0 <= i < a.len() && visible(#[trigger] a[i], file, lsn) ==> exists|j: int|
                0 <= j < b.len() && visible(#[trigger] b[j], file, lsn) && b[j].position
                    == a[i].position,
        forall|j: int|
            0 <= j < b.len() && visible(#[trigger] b[j], file, lsn) ==> exists|i: int|
                0 <= i < a.len() && visible(#[trigger] a[i], file, lsn) && a[i].position
                    == b[j].position,
    ensures
        deleted_offsets(a, file, lsn) == deleted_offsets(b, file, lsn),
{
    assert forall|row: u32| deleted_offsets(a, file, lsn).contains(row) <==> deleted_offsets(
        b,
        file,
        lsn,
    ).contains(row) by {
        if deleted_offsets(a, file, lsn).contains(row) {
            let i = choose|i: int|
                0 <= i < a.len() && visible(#[trigger] a[i], file, lsn)
                    && a[i].position.data_file_row_number == row;
            let j = choose|j: int|
                0 <= j < b.len() && visible(#[trigger] b[j], file, lsn) && b[j].position
                    == a[i].position;
            assert(b[j].position.data_file_row_number == row);
        }
        if deleted_offsets(b, file, lsn).contains(row) {
            let j = choose|j: int|
                0 <= j < b.len() && visible(#[trigger] b[j], file, lsn)
                    && b[j].position.data_file_row_number == row;
            let i = choose|i: int|
                0 <= i < a.len() && visible(#[trigger] a[i], file, lsn) && a[i].position
                    == b[j].position;
            assert(a[i].position.data_file_row_number == row);
        }
    }
    assert(deleted_offsets(a, file, lsn) =~= deleted_offsets(b, file, lsn));
}

/// Where no deletion is fresh, the rows deleted at `lsn` are those deleted at
/// `after`.
pub proof fn lemma_stale_deleted(
    deletions: Seq<DeletionView>,
    file: int,
    after: Option<u64>,
    lsn: u64,
)
    requires
        !has_fresh(deletions, file, after, lsn),
        after matches Some(before) ==> before <= lsn,
    ensures
        deleted_offsets(deletions, file, lsn) == deleted_up_to(deletions, file, after),
{
    assert forall|row: u32| deleted_offsets(deletions, file, lsn).contains(row) <==> deleted_up_to(
        deletions,
        file,
        after,
    ).contains(row) by {
        if deleted_offsets(deletions, file, lsn).contains(row) {
            let i = choose|i: int|
                0 <= i < deletions.len() && visible(#[trigger] deletions[i], file, lsn)
                    && deletions[i].position.data_file_row_number == row;
            assert(!fresh(deletions[i], file, after, lsn));
        }
        if deleted_up_to(deletions, file, after).contains(row) {
            let i = choose|i: int|
                0 <= i < deletions.len() && visible(#[trigger] deletions[i], file, after.unwrap())
                    && deletions[i].position.data_file_row_number == row;
            assert(visible(deletions[i], file, lsn));
        }
    }
    assert(deleted_offsets(deletions, file, lsn) =~= deleted_up_to(deletions, file, after));
}

/// The deletion vector of file number `file` at `lsn`, and whether a
/// deletion of the file became visible above `after`.
pub(crate) fn build_vector(
    deletions: &Vec<Deletion>,
    file: usize,
    row_count: u32,
    after: Option<u64>,
    lsn: u64,
) -> (built: (DeletionVector, bool))
    requires
        forall|i: int|
            0 <= i < deletions@.len() && (#[trigger] deletions@[i])@.position.data_file_number
                == file ==> deletions@[i]@.position.data_file_row_number < row_count,
    ensures
        built.0.wf(),
        built.0.row_count() == row_count,
        built.0@ == deleted_offsets(deletions_view(deletions@), file as int, lsn),
        built.1 == has_fresh(deletions_view(deletions@), file as int, after, lsn),
{
    let ghost all = deletions_view(deletions@);
    let mut vector = DeletionVector::new(row_count);
    let mut any_fresh = false;
    let mut i: usize = 0;
    assert(vector@ =~= deleted_offsets(all.take(0), file as int, lsn));
    while i < deletions.len()
        invariant
            i <= deletions.len(),
            all == deletions_view(deletions@),
            forall|k: int|
                0 <= k < deletions@.len() && (#[trigger] deletions@[k])@.position.data_file_number
                    == file ==> deletions@[k]@.position.data_file_row_number < row_count,
            vector.wf(),
            vector.row_count() == row_count,
            vector@ == deleted_offsets(all.take(i as int), file as int, lsn),
            any_fresh == has_fresh(all.take(i as int), file as int, after, lsn),
        decreases deletions.len() - i,
    {
        let deletion = deletions[i];
        let ghost before = all.take(i as int);
        let ghost next = all.take(i + 1);
        let ghost seen = vector@;
        assert(all[i as int] == deletion@);
        let counts = deletion.position.data_file_number as usize == file && match deletion.lsn {
            Some(at) => at <= lsn,
            None => false,
        };
        assert(counts == visible(deletion@, file as int, lsn));
        if counts {
            vector.mark_deleted(deletion.position.data_file_row_number);
            let stale = match (after, deletion.lsn) {
                (Some(before_lsn), Some(at)) => at <= before_lsn,
                _ => false,
            };
            if !stale {
                any_fresh = true;
            }
        }
        proof {
            assert(next.drop_last() =~= before);
            assert(next[i as int] == deletion@);
            let row = deletion@.position.data_file_row_number;
            assert forall|r: u32| vector@.contains(r) <==> deleted_offsets(
                next,
                file as int,
                lsn,
            ).contains(r) by {
                if deleted_offsets(next, file as int, lsn).contains(r) {
                    let k = choose|k: int|
                        0 <= k < next.len() && visible(#[trigger] next[k], file as int, lsn)
                            && next[k].position.data_file_row_number == r;
                    if k < i {
                        assert(before[k] == next[k]);
                        assert(seen.contains(r));
                    }
                }
                if seen.contains(r) {
                    let k = choose|k: int|
                        0 <= k < before.len() && visible(#[trigger] before[k], file as int, lsn)
                            && before[k].position.data_file_row_number == r;
                    assert(next[k] == before[k]);
                }
                if counts && r == row {
                    assert(visible(next[i as int], file as int, lsn));
                }
            }
            assert(vector@ =~= deleted_offsets(next, file as int, lsn));
            if has_fresh(next, file as int, after, lsn) {
                let k = choose|k: int|
                    0 <= k < next.len() && fresh(#[trigger] next[k], file as int, after, lsn);
                if k < i {
                    assert(before[k] == next[k]);
                }
            }
            if has_fresh(before, file as int, after, lsn) {
                let k = choose|k: int|
                    0 <= k < before.len() && fresh(#[trigger] before[k], file as int, after, lsn);
                assert(next[k] == before[k]);
            }
            if counts && fresh(deletion@, file as int, after, lsn) {
                assert(fresh(next[i as int], file as int, after, lsn));
            }
        }
        i += 1;
    }
    assert(all.take(i as int) =~= all);
    (vector, any_fresh)
}

/// Brings what is persisted up to `lsn`. For each data file with a deletion
/// that became visible above `after` the deletion vector at `lsn` is written
/// into one new container, which is put into the store; what is persisted for
/// the other files stays.
pub(crate) fn sync_vectors(
    files: &Vec<DataFile>,
    deletions: &Vec<Deletion>,
    vectors: &mut Vec<Option<StoredVector>>,
    store: &mut PuffinStore,
    after: Option<u64>,
    lsn: u64,
)
    requires
        after matches Some(before) ==> before <= lsn,
        vectors_ok(
            files_view(files@),
            deletions_view(deletions@),
            after,
            old(vectors)@,
            old(store)@,
        ),
        forall|i: int|
            0 <= i < deletions@.len() ==> in_range(
                files_view(files@),
                (#[trigger] deletions@[i])@.position,
            ),
    ensures
        vectors_ok(
            files_view(files@),
            deletions_view(deletions@),
            Some(lsn),
            final(vectors)@,
            final(store)@,
        ),
        old(store)@.len() <= final(store)@.len() <= old(store)@.len() + 1,
        forall|id: int| 0 <= id < old(store)@.len() ==> final(store)@[id] == old(store)@[id],
{
    let ghost file_views = files_view(files@);
    let ghost all = deletions_view(deletions@);
    let ghost kept = store@;
    let ghost given = vectors@;
    let mut container = PuffinFile::new();
    let new_id = store.len() as u64;
    let mut wrote = false;
    let mut f: usize = 0;
    while f < files.len()
        invariant
            f <= files.len(),
            file_views == files_view(files@),
            all == deletions_view(deletions@),
            after matches Some(before) ==> before <= lsn,
            kept == store@,
            new_id == kept.len(),
            vectors@.len() == files.len(),
            given.len() == files.len(),
            forall|i: int|
                0 <= i < deletions@.len() ==> in_range(
                    file_views,
                    (#[trigger] deletions@[i])@.position,
                ),
            forall|g: int|
                0 <= g < f ==> vector_ok(
                    file_views[g],
                    deleted_offsets(all, g, lsn),
                    #[trigger] vectors@[g],
                    kept.push(container@),
                ),
            forall|g: int|
                f <= g < files.len() ==> vector_ok(
                    file_views[g],
                    deleted_up_to(all, g, after),
                    #[trigger] vectors@[g],
                    kept,
                ),
            !wrote ==> forall|g: int|
                0 <= g < f ==> ((#[trigger] vectors@[g]) matches Some(at) ==> at.puffin_id
                    < kept.len()),
        decreases files.len() - f,
    {
        let rows = files[f].reachable_rows();
        proof {
            assert forall|i: int|
                0 <= i < deletions@.len() && (#[trigger] deletions@[i])@.position.data_file_number
                    == f implies deletions@[i]@.position.data_file_row_number < rows by {
                assert(in_range(file_views, deletions@[i]@.position));
            }
        }
        let (vector, any_fresh) = build_vector(deletions, f, rows, after, lsn);
        let ghost before_container = container@;
        let ghost before_vectors = vectors@;
        let keep = !any_fresh && vectors[f].is_some();
        let empty = vector.is_empty();
        if empty {
            vectors.set(f, None);
            assert(vector@ =~= Set::<u32>::empty());
        } else if keep {
            proof {
                lemma_stale_deleted(all, f as int, after, lsn);
            }
        } else {
            let blob = vector.serialize();
            let at = container.add_blob(blob.as_slice());
            vectors.set(f, Some(StoredVector { puffin_id: new_id, offset: at.offset, size: at.size }));
            wrote = true;
            proof {
                lemma_blob_round_trip(vector.row_count(), vector.positions());
                assert(kept.push(container@)[new_id as int] == container@);
                if vector.positions().len() == 0 {
                    assert(vector.positions().to_set() =~= Set::<u32>::empty());
                }
            }
        }
        proof {
            assert forall|g: int| 0 <= g < f + 1 implies vector_ok(
                file_views[g],
                deleted_offsets(all, g, lsn),
                #[trigger] vectors@[g],
                kept.push(container@),
            ) by {
                if g < f {
                    assert(vectors@[g] == before_vectors[g]);
                    assert(vector_ok(
                        file_views[g],
                        deleted_offsets(all, g, lsn),
                        before_vectors[g],
                        kept.push(before_container),
                    ));
                    if before_vectors[g] is Some {
                        let at = before_vectors[g].unwrap();
                        if at.puffin_id < kept.len() {
                            assert(kept.push(container@)[at.puffin_id as int] == kept.push(
                                before_container,
                            )[at.puffin_id as int]);
                        } else {
                            assert(kept.push(before_container)[at.puffin_id as int]
                                == before_container);
                            assert(kept.push(container@)[at.puffin_id as int] == container@);
                            if container@ != before_container {
                                let blob = choose|blob: Seq<u8>|
                                    container@ == before_container + blob;
                                lemma_blobs_independent(
                                    before_container,
                                    blob,
                                    at.offset,
                                    at.size,
                                );
                            }
                        }
                    }
                } else if keep && !empty {
                    let at = before_vectors[g].unwrap();
                    assert(vectors@[g] == before_vectors[g]);
                    assert(vector_ok(
                        file_views[g],
                        deleted_up_to(all, g, after),
                        before_vectors[g],
                        kept,
                    ));
                    assert(kept.push(container@)[at.puffin_id as int] == kept[at.puffin_id as int]);
                }
            }
            assert forall|g: int| f + 1 <= g < files.len() implies vector_ok(
                file_views[g],
                deleted_up_to(all, g, after),
                #[trigger] vectors@[g],
                kept,
            ) by {
                assert(vectors@[g] == before_vectors[g]);
            }
            if !wrote {
                assert forall|g: int| 0 <= g < f + 1 implies ((
                #[trigger] vectors@[g]) matches Some(at) ==> at.puffin_id < kept.len()) by {
                    if g < f {
                        assert(vectors@[g] == before_vectors[g]);
                    } else if keep && !empty {
                        assert(vector_ok(
                            file_views[g],
                            deleted_up_to(all, g, after),
                            before_vectors[g],
                            kept,
                        ));
                    }
                }
            }
        }
        f += 1;
    }
    if wrote {
        store.put(container);
    } else {
        proof {
            assert forall|g: int| 0 <= g < files.len() implies vector_ok(
                file_views[g],
                deleted_up_to(all, g, Some(lsn)),
                #[trigger] vectors@[g],
                kept,
            ) by {
                assert(vector_ok(
                    file_views[g],
                    deleted_offsets(all, g, lsn),
                    vectors@[g],
                    kept.push(container@),
                ));
                if vectors@[g] is Some {
                    let at = vectors@[g].unwrap();
                    assert(kept.push(container@)[at.puffin_id as int] == kept[at.puffin_id as int]);
                }
            }
        }
    }
}

} // verus!
