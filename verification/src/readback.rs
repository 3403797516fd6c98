//! Reading a snapshot back: the identifiers that its data files hold once the
//! position deletes are applied, and the comparison with what is expected.

use crate::buffer::{DataFile, FileView};
use crate::deletion_vector::{parse_blob, DeletionVector};
use crate::position::{DeletionVectorRef, PositionDelete};
use crate::puffin::{blob_at, load_blob};
use crate::row::row_id;
use crate::table::TableError;
use std::collections::HashSet;
use vstd::prelude::*;
use vstd::relations::{sorted_by, total_ordering};
use vstd::seq_lib::*;
use vstd::set_lib::*;
use vstd::slice::slice_to_vec;
use vstd::std_specs::hash::*;

verus! {

/// Whether one of `deletions` removes row `pos` of file number `file`.
pub open spec fn is_deleted_at(deletions: Seq<PositionDelete>, file: int, pos: int) -> bool {
    exists|k: int|
        0 <= k < deletions.len() && (#[trigger] deletions[k]).data_file_number == file
            && deletions[k].data_file_row_number == pos
}

/// The identifiers of one file after the deletes: a deleted row holds nothing,
/// every other row what it held. A delete beyond the file's last row, or for
/// another file, changes nothing; a repeated one changes nothing more.
pub open spec fn apply_deletions(
    ids: Seq<Option<i32>>,
    file: int,
    deletions: Seq<PositionDelete>,
) -> Seq<Option<i32>> {
    Seq::new(
        ids.len(),
        |pos: int|
            if is_deleted_at(deletions, file, pos) {
                None
            } else {
                ids[pos]
            },
    )
}

/// The function that keeps what a row holds.
pub open spec fn held() -> spec_fn(Option<i32>) -> Option<i32> {
    |id: Option<i32>| id
}

/// The identifiers that rows hold, in row order, empty rows left out.
pub open spec fn present_ids(ids: Seq<Option<i32>>) -> Seq<i32> {
    ids.filter_map(held())
}

/// The identifiers left in file number `file` after the deletes, in row order.
pub open spec fn remaining_in_file(
    ids: Seq<Option<i32>>,
    file: int,
    deletions: Seq<PositionDelete>,
) -> Seq<i32> {
    present_ids(apply_deletions(ids, file, deletions))
}

/// The identifiers left in all the files after the deletes, file after file.
pub open spec fn remaining_ids(files: Seq<Vec<Option<i32>>>, deletions: Seq<PositionDelete>) -> Seq<
    i32,
> {
    Seq::new(files.len(), |i: int| remaining_in_file(files[i]@, i, deletions)).flatten()
}

/// The order of identifiers: ascending.
pub open spec fn ascending() -> spec_fn(i32, i32) -> bool {
    |a: i32, b: i32| a <= b
}

/// Ascending order of identifiers is a total order.
pub proof fn lemma_ascending_total()
    ensures
        total_ordering(ascending()),
{
    assert(vstd::relations::reflexive(ascending()));
    assert(vstd::relations::antisymmetric(ascending()));
    assert(vstd::relations::transitive(ascending()));
    assert(vstd::relations::strongly_connected(ascending()));
}

/// The identifiers of `ids` in ascending order, each as often as it occurs
/// there.
pub fn sort_ids(ids: &[i32]) -> (sorted: Vec<i32>)
    ensures
        sorted@ == ids@.sort_by(ascending()),
{
    let mut sorted: Vec<i32> = Vec::new();
    let mut i: usize = 0;
    assert(sorted@ =~= ids@.take(0));
    while i < ids.len()
        invariant
            i <= ids.len(),
            sorted_by(sorted@, ascending()),
            sorted@.to_multiset() == ids@.take(i as int).to_multiset(),
        decreases ids.len() - i,
    {
        let id = ids[i];
        let mut at: usize = sorted.len();
        while at > 0 && sorted[at - 1] > id
            invariant
                at <= sorted.len(),
                forall|k: int| at <= k < sorted.len() ==> sorted@[k] > id,
            decreases at,
        {
            at -= 1;
        }
        proof {
            let before = sorted@;
            let after = before.insert(at as int, id);
            assert forall|a: int, b: int| 0 <= a < b < after.len() implies #[trigger] ascending()(
                after[a],
                after[b],
            ) by {
                if b < at {
                    assert(ascending()(before[a], before[b]));
                } else if b == at {
                    if at > 0 {
                        assert(ascending()(before[a], before[at - 1]));
                    }
                } else if a < at {
                    assert(ascending()(before[a], before[b - 1]));
                } else if a == at {
                } else {
                    assert(ascending()(before[a - 1], before[b - 1]));
                }
            }
            to_multiset_insert(before, at as int, id);
            assert(ids@.take(i + 1) =~= ids@.take(i as int).push(id));
            to_multiset_build(ids@.take(i as int), id);
        }
        sorted.insert(at, id);
        i += 1;
    }
    proof {
        assert(ids@.take(i as int) =~= ids@);
        lemma_ascending_total();
        ids@.lemma_sort_by_ensures(ascending());
        lemma_sorted_unique(sorted@, ids@.sort_by(ascending()), ascending());
    }
    sorted
}

/// Applies the position deletes to the identifiers of file number `file`.
pub fn apply_position_deletes(ids: &[Option<i32>], file: usize, deletions: &[PositionDelete]) -> (out:
    Vec<Option<i32>>)
    ensures
        out@ == apply_deletions(ids@, file as int, deletions@),
{
    let mut out: Vec<Option<i32>> = slice_to_vec(ids);
    let mut k: usize = 0;
    while k < deletions.len()
        invariant
            k <= deletions.len(),
            out@ == apply_deletions(ids@, file as int, deletions@.take(k as int)),
        decreases deletions.len() - k,
    {
        let deletion = deletions[k];
        let ghost before = deletions@.take(k as int);
        let ghost after = deletions@.take(k + 1);
        let hit = deletion.data_file_number as usize == file && (
        deletion.data_file_row_number as usize) < out.len();
        if hit {
            out.set(deletion.data_file_row_number as usize, None);
        }
        proof {
            assert forall|pos: int| 0 <= pos < ids@.len() implies out@[pos] == apply_deletions(
                ids@,
                file as int,
                after,
            )[pos] by {
                let here = deletion.data_file_number == file && deletion.data_file_row_number
                    == pos;
                if is_deleted_at(before, file as int, pos) {
                    let j = choose|j: int|
                        0 <= j < before.len() && (#[trigger] before[j]).data_file_number == file
                            && before[j].data_file_row_number == pos;
                    assert(after[j] == before[j]);
                } else if here {
                    assert(after[k as int] == deletion);
                } else if is_deleted_at(after, file as int, pos) {
                    let j = choose|j: int|
                        0 <= j < after.len() && (#[trigger] after[j]).data_file_number == file
                            && after[j].data_file_row_number == pos;
                    if j < k {
                        assert(before[j] == after[j]);
                    }
                }
            }
            assert(out@ =~= apply_deletions(ids@, file as int, after));
        }
        k += 1;
    }
    assert(deletions@.take(k as int) =~= deletions@);
    out
}

/// The identifiers that the rows hold, in row order, empty rows left out.
pub fn collect_present(ids: &[Option<i32>]) -> (out: Vec<i32>)
    ensures
        out@ == present_ids(ids@),
{
    let mut out: Vec<i32> = Vec::new();
    let mut i: usize = 0;
    while i < ids.len()
        invariant
            i <= ids.len(),
            out@ == present_ids(ids@.take(i as int)),
        decreases ids.len() - i,
    {
        proof {
            ids@.lemma_filter_map_take_succ(held(), i as int);
        }
        match ids[i] {
            Some(id) => {
                out.push(id);
            },
            None => {},
        }
        assert(out@ =~= present_ids(ids@.take(i + 1)));
        i += 1;
    }
    assert(ids@.take(i as int) =~= ids@);
    out
}

/// The identifiers left in all the files once the deletes are applied, file
/// after file and row after row. `files[i]` holds what file number `i` holds,
/// row by row.
pub fn collect_remaining_ids(files: &[Vec<Option<i32>>], deletions: &[PositionDelete]) -> (out: Vec<
    i32,
>)
    ensures
        out@ == remaining_ids(files@, deletions@),
{
    let mut out: Vec<i32> = Vec::new();
    let mut i: usize = 0;
    while i < files.len()
        invariant
            i <= files.len(),
            out@ == remaining_ids(files@.take(i as int), deletions@),
        decreases files.len() - i,
    {
        let kept = apply_position_deletes(files[i].as_slice(), i, deletions);
        let mut left = collect_present(kept.as_slice());
        proof {
            let upto = Seq::new(
                i as nat,
                |j: int| remaining_in_file(files@.take(i as int)[j]@, j, deletions@),
            );
            let next = Seq::new(
                (i + 1) as nat,
                |j: int| remaining_in_file(files@.take(i + 1)[j]@, j, deletions@),
            );
            assert(next =~= upto.push(left@));
            upto.lemma_flatten_push(left@);
        }
        out.append(&mut left);
        i += 1;
    }
    assert(files@.take(i as int) =~= files@);
    out
}

/// Whether the identifiers left in the files after the deletes are exactly
/// `expected_ids`: the same identifiers, each as often, and `expected_ids` in
/// ascending order.
pub fn verify_files_and_deletions_impl(
    files: &[Vec<Option<i32>>],
    deletions: &[PositionDelete],
    expected_ids: &[i32],
) -> (ok: bool)
    ensures
        ok == (expected_ids@ == remaining_ids(files@, deletions@).sort_by(ascending())),
{
    let left = collect_remaining_ids(files, deletions);
    let sorted = sort_ids(left.as_slice());
    same_ids(sorted.as_slice(), expected_ids)
}

/// Whether two sequences of identifiers are equal.
pub fn same_ids(a: &[i32], b: &[i32]) -> (eq: bool)
    ensures
        eq == (a@ == b@),
{
    if a.len() != b.len() {
        return false;
    }
    let mut i: usize = 0;
    while i < a.len()
        invariant
            i <= a.len(),
            a.len() == b.len(),
            forall|k: int| 0 <= k < i ==> a@[k] == b@[k],
        decreases a.len() - i,
    {
        if a[i] != b[i] {
            return false;
        }
        i += 1;
    }
    assert(a@ =~= b@);
    true
}

/// What the rows of a data file hold as identifiers, row by row: the first
/// value of a row where that is a 32-bit integer, nothing else.
pub open spec fn file_ids(file: FileView) -> Seq<Option<i32>> {
    Seq::new(file.rows.len(), |i: int| row_id(file.rows[i]))
}

/// Reads the identifiers of a data file, row by row.
pub fn read_ids_from_data_file(file: &DataFile) -> (ids: Vec<Option<i32>>)
    ensures
        ids@ == file_ids(file@),
{
    let rows = file.rows();
    let mut ids: Vec<Option<i32>> = Vec::new();
    let mut i: usize = 0;
    while i < rows.len()
        invariant
            i <= rows.len(),
            crate::buffer::rows_view(rows@) == file@.rows,
            ids@.len() == i,
            forall|k: int| 0 <= k < i ==> ids@[k] == row_id(file@.rows[k]),
        decreases rows.len() - i,
    {
        assert(crate::buffer::rows_view(rows@)[i as int] == rows@[i as int]@);
        ids.push(rows[i].id());
        i += 1;
    }
    assert(ids@ =~= file_ids(file@));
    ids
}

/// The position deletes that one reference stands for: one for each offset of
/// the deletion vector that the reference points at, in ascending order of the
/// offsets. Fails where the container or the blob is not there, where the blob
/// is not a deletion vector, and where the vector is empty.
pub open spec fn expand_ref(puffins: Seq<Vec<u8>>, at: DeletionVectorRef) -> Result<
    Seq<PositionDelete>,
    TableError,
> {
    if at.puffin_file_number >= puffins.len() {
        Err(TableError::StorageIOFailure)
    } else {
        match blob_at(puffins[at.puffin_file_number as int]@, at.offset, at.size) {
            None => Err(TableError::StorageIOFailure),
            Some(blob) => match parse_blob(blob) {
                Err(_) => Err(TableError::BlobCorruption),
                Ok(read) => if read.1.len() == 0 {
                    Err(TableError::BlobCorruption)
                } else {
                    Ok(
                        Seq::new(
                            read.1.len(),
                            |i: int|
                                PositionDelete {
                                    data_file_number: at.data_file_number,
                                    data_file_row_number: read.1[i],
                                },
                        ),
                    )
                },
            },
        }
    }
}

/// The position deletes that the references stand for, reference after
/// reference, or the fault of the first reference that fails.
pub open spec fn expand_refs(puffins: Seq<Vec<u8>>, refs: Seq<DeletionVectorRef>) -> Result<
    Seq<PositionDelete>,
    TableError,
>
    decreases refs.len(),
{
    if refs.len() == 0 {
        Ok(Seq::<PositionDelete>::empty())
    } else {
        match expand_refs(puffins, refs.drop_last()) {
            Err(fault) => Err(fault),
            Ok(init) => match expand_ref(puffins, refs.last()) {
                Err(fault) => Err(fault),
                Ok(more) => Ok(init + more),
            },
        }
    }
}

/// Reads the deletion vector that a reference points at and returns its
/// position deletes.
pub fn load_position_deletes(puffin_files: &[Vec<u8>], at: DeletionVectorRef) -> (read: Result<
    Vec<PositionDelete>,
    TableError,
>)
    ensures
        match read {
            Ok(deletes) => expand_ref(puffin_files@, at) == Ok::<Seq<PositionDelete>, TableError>(
                deletes@,
            ),
            Err(fault) => expand_ref(puffin_files@, at) == Err::<Seq<PositionDelete>, TableError>(
                fault,
            ),
        },
{
    if at.puffin_file_number as usize >= puffin_files.len() {
        return Err(TableError::StorageIOFailure);
    }
    let blob = match load_blob(
        puffin_files[at.puffin_file_number as usize].as_slice(),
        at.offset,
        at.size,
    ) {
        None => {
            return Err(TableError::StorageIOFailure);
        },
        Some(blob) => blob,
    };
    let vector = match DeletionVector::deserialize(blob.as_slice()) {
        Err(_) => {
            return Err(TableError::BlobCorruption);
        },
        Ok(vector) => vector,
    };
    let rows = vector.collect_deleted_rows();
    if rows.len() == 0 {
        return Err(TableError::BlobCorruption);
    }
    let mut deletes: Vec<PositionDelete> = Vec::new();
    let mut i: usize = 0;
    while i < rows.len()
        invariant
            i <= rows.len(),
            deletes@.len() == i,
            forall|k: int|
                0 <= k < i ==> deletes@[k] == (PositionDelete {
                    data_file_number: at.data_file_number,
                    data_file_row_number: rows@[k],
                }),
        decreases rows.len() - i,
    {
        deletes.push(
            PositionDelete { data_file_number: at.data_file_number, data_file_row_number: rows[i] },
        );
        i += 1;
    }
    assert(deletes@ =~= expand_ref(puffin_files@, at)->Ok_0);
    Ok(deletes)
}

/// Whether the identifiers left in the files are exactly `expected_ids`, once
/// the position deletes and the deletes of the deletion vectors are applied.
/// `files[i]` holds what file number `i` holds, row by row; `puffin_files[k]`
/// holds the bytes of container number `k`. Fails where a deletion vector
/// cannot be read or is empty.
pub fn verify_files_and_deletions(
    files: &[Vec<Option<i32>>],
    puffin_files: &[Vec<u8>],
    position_deletes: Vec<PositionDelete>,
    deletion_vectors: Vec<DeletionVectorRef>,
    expected_ids: &[i32],
) -> (verdict: Result<bool, TableError>)
    ensures
        match verdict {
            Ok(ok) => expand_refs(puffin_files@, deletion_vectors@) matches Ok(more) && ok == (
            expected_ids@ == remaining_ids(files@, position_deletes@ + more).sort_by(ascending())),
            Err(fault) => expand_refs(puffin_files@, deletion_vectors@) == Err::<
                Seq<PositionDelete>,
                TableError,
            >(fault),
        },
{
    let mut deletes = position_deletes;
    let mut i: usize = 0;
    let ghost mut more = Seq::<PositionDelete>::empty();
    assert(deletion_vectors@.take(0) =~= Seq::<DeletionVectorRef>::empty());
    assert(deletes@ =~= position_deletes@ + more);
    while i < deletion_vectors.len()
        invariant
            i <= deletion_vectors.len(),
            expand_refs(puffin_files@, deletion_vectors@.take(i as int)) == Ok::<
                Seq<PositionDelete>,
                TableError,
            >(more),
            deletes@ == position_deletes@ + more,
        decreases deletion_vectors.len() - i,
    {
        proof {
            assert(deletion_vectors@.take(i + 1).drop_last() =~= deletion_vectors@.take(i as int));
            assert(deletion_vectors@.take(i + 1).last() == deletion_vectors@[i as int]);
        }
        match load_position_deletes(puffin_files, deletion_vectors[i]) {
            Err(fault) => {
                proof {
                    lemma_expand_fault(puffin_files@, deletion_vectors@, i + 1);
                }
                return Err(fault);
            },
            Ok(found) => {
                let mut found = found;
                proof {
                    more = more + found@;
                }
                deletes.append(&mut found);
                assert(deletes@ =~= position_deletes@ + more);
            },
        }
        i += 1;
    }
    assert(deletion_vectors@.take(i as int) =~= deletion_vectors@);
    Ok(verify_files_and_deletions_impl(files, deletes.as_slice(), expected_ids))
}

/// A fault among the first references is the fault of them all.
pub proof fn lemma_expand_fault(puffins: Seq<Vec<u8>>, refs: Seq<DeletionVectorRef>, k: int)
    requires
        0 <= k <= refs.len(),
        expand_refs(puffins, refs.take(k)) is Err,
    ensures
        expand_refs(puffins, refs) == expand_refs(puffins, refs.take(k)),
    decreases refs.len() - k,
{
    if k < refs.len() {
        assert(refs.take(k + 1).drop_last() =~= refs.take(k));
        lemma_expand_fault(puffins, refs, k + 1);
    } else {
        assert(refs.take(k) =~= refs);
    }
}

/// The set of identifiers that the rows of a file hold.
pub open spec fn id_set(ids: Seq<Option<i32>>) -> Set<i32> {
    Set::new(|id: i32| ids.contains(Some(id)))
}

fn collect_id_set(ids: &[Option<i32>]) -> (held: HashSet<i32>)
    ensures
        held@ == id_set(ids@),
        held@.finite(),
{
    broadcast use group_hash_axioms;

    let mut held: HashSet<i32> = HashSet::new();
    let mut i: usize = 0;
    while i < ids.len()
        invariant
            i <= ids.len(),
            held@ == id_set(ids@.take(i as int)),
            held@.finite(),
        decreases ids.len() - i,
    {
        let ghost before = ids@.take(i as int);
        let ghost after = ids@.take(i + 1);
        assert(after =~= before.push(ids@[i as int]));
        match ids[i] {
            Some(id) => {
                held.insert(id);
                assert(held@ =~= id_set(after)) by {
                    assert forall|v: i32| id_set(after).contains(v) implies id_set(
                        before,
                    ).insert(id).contains(v) by {
                        let at = choose|at: int| 0 <= at < after.len() && after[at] == Some(v);
                        if at < i {
                            assert(before[at] == Some(v));
                        }
                    }
                    assert forall|v: i32| id_set(before).insert(id).contains(v) implies id_set(
                        after,
                    ).contains(v) by {
                        if v == id {
                            assert(after[i as int] == Some(v));
                        } else {
                            let at = choose|at: int|
                                0 <= at < before.len() && before[at] == Some(v);
                            assert(after[at] == Some(v));
                        }
                    }
                }
            },
            None => {
                assert(held@ =~= id_set(after)) by {
                    assert forall|v: i32| id_set(after).contains(v) implies id_set(
                        before,
                    ).contains(v) by {
                        let at = choose|at: int| 0 <= at < after.len() && after[at] == Some(v);
                        assert(before[at] == Some(v));
                    }
                    assert forall|v: i32| id_set(before).contains(v) implies id_set(
                        after,
                    ).contains(v) by {
                        let at = choose|at: int|
                            0 <= at < before.len() && before[at] == Some(v);
                        assert(after[at] == Some(v));
                    }
                }
            },
        }
        i += 1;
    }
    assert(ids@.take(i as int) =~= ids@);
    held
}

/// The number of different identifiers that the rows of a file hold.
pub fn count_distinct_ids(ids: &[Option<i32>]) -> (n: usize)
    ensures
        n == id_set(ids@).len(),
{
    broadcast use group_hash_axioms;

    let held = collect_id_set(ids);
    held.len()
}

/// Whether a file holds exactly the expected identifiers, whatever their order
/// and however often each occurs, and, where a count is given, that many
/// different ones. `ids` is what the file holds, row by row.
pub fn verify_file_contents(
    ids: &[Option<i32>],
    expected_ids: &[i32],
    expected_row_count: Option<usize>,
) -> (ok: bool)
    ensures
        ok == ({
            &&& expected_row_count matches Some(count) ==> id_set(ids@).len() == count
            &&& id_set(ids@) == expected_ids@.to_set()
        }),
{
    broadcast use group_hash_axioms;

    let actual = collect_id_set(ids);
    let mut expected: HashSet<i32> = HashSet::new();
    let mut included = true;
    let mut i: usize = 0;
    while i < expected_ids.len()
        invariant
            i <= expected_ids.len(),
            expected@ == expected_ids@.take(i as int).to_set(),
            expected@.finite(),
            included == expected@.subset_of(actual@),
        decreases expected_ids.len() - i,
    {
        let id = expected_ids[i];
        proof {
            assert(expected_ids@.take(i + 1) =~= expected_ids@.take(i as int).push(id));
            expected_ids@.take(i as int).lemma_push_to_set_commute(id);
        }
        if !actual.contains(&id) {
            included = false;
        }
        expected.insert(id);
        proof {
            if included {
                assert(expected@.subset_of(actual@));
            } else {
                assert(!expected@.subset_of(actual@)) by {
                    if !actual@.contains(id) {
                        assert(expected@.contains(id));
                    } else {
                        let missing = choose|v: i32|
                            expected_ids@.take(i as int).to_set().contains(v) && !actual@.contains(
                                v,
                            );
                        assert(expected@.contains(missing));
                    }
                }
            }
        }
        i += 1;
    }
    assert(expected_ids@.take(i as int) =~= expected_ids@);
    let same = included && actual.len() == expected.len();
    proof {
        if same {
            lemma_subset_equality(expected@, actual@);
        }
    }
    match expected_row_count {
        Some(count) => same && actual.len() == count,
        None => same,
    }
}

} // verus!
