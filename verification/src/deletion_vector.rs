//! Deletion vectors: the set of deleted row offsets of one data file, and the
//! self-describing blob that carries it.
//!
//! A blob is laid out as
//!
//! ```text
//! magic (4 bytes) | row count (u32, LE) | number of offsets (u32, LE)
//!                 | offsets (u32 each, LE, strictly ascending) | Adler-32 of all before (u32, LE)
//! ```

use crate::checksum::{adler32, checksum};
use vstd::bytes::*;
use vstd::prelude::*;
use vstd::slice::{slice_subrange, slice_to_vec};

verus! {

/// Whether a sequence grows strictly from each element to the next.
pub open spec fn strictly_increasing(s: Seq<u32>) -> bool {
    forall|i: int, j: int| 0 <= i < j < s.len() ==> s[i] < s[j]
}

/// Whether `positions` can be the deleted offsets of a file of `row_count`
/// rows: strictly ascending and all below `row_count`.
pub open spec fn valid_positions(row_count: u32, positions: Seq<u32>) -> bool {
    &&& strictly_increasing(positions)
    &&& forall|i: int| 0 <= i < positions.len() ==> positions[i] < row_count
}

/// A strictly ascending sequence is at least as large, at each index, as the
/// index; so one that stays below `row_count` has at most `row_count` elements.
pub proof fn lemma_positions_bounded(row_count: u32, positions: Seq<u32>)
    requires
        valid_positions(row_count, positions),
    ensures
        positions.len() <= row_count,
        forall|i: int| 0 <= i < positions.len() ==> i <= positions[i],
    decreases positions.len(),
{
    if positions.len() > 0 {
        let init = positions.drop_last();
        lemma_positions_bounded(row_count, init);
        let n = positions.len() - 1;
        if n > 0 {
            assert(init[n - 1] == positions[n - 1]);
            assert(positions[n - 1] < positions[n]);
        }
        assert forall|i: int| 0 <= i < positions.len() implies i <= positions[i] by {
            if i < n {
                assert(init[i] == positions[i]);
            }
        }
    }
}

/// Two strictly ascending sequences with the same elements are the same
/// sequence.
pub proof fn lemma_positions_determined(a: Seq<u32>, b: Seq<u32>)
    requires
        strictly_increasing(a),
        strictly_increasing(b),
        a.to_set() == b.to_set(),
    ensures
        a == b,
    decreases a.len(),
{
    if a.len() == 0 {
        if b.len() > 0 {
            assert(b.to_set().contains(b[0]));
            assert(a.to_set().contains(b[0]));
        }
        assert(a =~= b);
    } else {
        let top = a.last();
        assert(a.to_set().contains(top));
        assert(b.to_set().contains(top));
        let k = choose|k: int| 0 <= k < b.len() && b[k] == top;
        if k < b.len() - 1 {
            let above = b.last();
            assert(b[k] < above);
            assert(b.to_set().contains(above));
            assert(a.to_set().contains(above));
            let m = choose|m: int| 0 <= m < a.len() && a[m] == above;
            if m < a.len() - 1 {
                assert(a[m] < a[a.len() - 1]);
            }
        }
        let a0 = a.drop_last();
        let b0 = b.drop_last();
        assert forall|x: u32| a0.to_set().contains(x) <==> b0.to_set().contains(x) by {
            if a0.to_set().contains(x) {
                let i = choose|i: int| 0 <= i < a0.len() && a0[i] == x;
                assert(a[i] == x);
                assert(a[i] < a[a.len() - 1]);
                assert(a.to_set().contains(x));
                assert(b.to_set().contains(x));
                let j = choose|j: int| 0 <= j < b.len() && b[j] == x;
                assert(j < b.len() - 1);
                assert(b0[j] == x);
            }
            if b0.to_set().contains(x) {
                let j = choose|j: int| 0 <= j < b0.len() && b0[j] == x;
                assert(b[j] == x);
                assert(b[j] < b[b.len() - 1]);
                assert(b.to_set().contains(x));
                assert(a.to_set().contains(x));
                let i = choose|i: int| 0 <= i < a.len() && a[i] == x;
                assert(i < a.len() - 1);
                assert(a0[i] == x);
            }
        }
        assert(a0.to_set() =~= b0.to_set());
        lemma_positions_determined(a0, b0);
        assert(a =~= a0.push(top));
        assert(b =~= b0.push(top));
    }
}

/// What marking an offset did.
#[derive(Clone, Copy, Debug, PartialEq, Eq, Structural)]
pub enum MarkOutcome {
    /// The offset was not deleted before and is now.
    Marked,
    /// The offset was deleted already; nothing changed.
    DuplicateDelete,
    /// The offset lies beyond the file's last row; nothing changed.
    DeletionOutOfRange,
}

/// The sorted offsets after marking `offset` in a file of `row_count` rows:
/// unchanged where the offset is out of range or there already, else with the
/// offset put in at its place.
pub open spec fn marked(row_count: u32, positions: Seq<u32>, offset: u32) -> Seq<u32> {
    if offset >= row_count || positions.contains(offset) {
        positions
    } else {
        positions.insert(lower_bound(positions, offset), offset)
    }
}

/// What marking `offset` reports.
pub open spec fn mark_outcome(row_count: u32, positions: Seq<u32>, offset: u32) -> MarkOutcome {
    if offset >= row_count {
        MarkOutcome::DeletionOutOfRange
    } else if positions.contains(offset) {
        MarkOutcome::DuplicateDelete
    } else {
        MarkOutcome::Marked
    }
}

/// The number of leading elements of an ascending sequence that are below
/// `offset`: the index at which `offset` stands, or belongs.
pub open spec fn lower_bound(positions: Seq<u32>, offset: u32) -> int
    decreases positions.len(),
{
    if positions.len() == 0 || positions.last() < offset {
        positions.len() as int
    } else {
        lower_bound(positions.drop_last(), offset)
    }
}

/// In a strictly ascending sequence the lower bound of `offset` is the one
/// index that parts the elements below `offset` from the others.
pub proof fn lemma_lower_bound(positions: Seq<u32>, offset: u32, at: int)
    requires
        strictly_increasing(positions),
        0 <= at <= positions.len(),
        forall|j: int| 0 <= j < at ==> positions[j] < offset,
        forall|j: int| at <= j < positions.len() ==> positions[j] >= offset,
    ensures
        lower_bound(positions, offset) == at,
    decreases positions.len(),
{
    if positions.len() == 0 || positions.last() < offset {
        if at < positions.len() {
            assert(positions[at] <= positions[positions.len() - 1]);
        }
    } else {
        let init = positions.drop_last();
        assert(at <= init.len()) by {
            if at == positions.len() {
                assert(positions[at - 1] < offset);
            }
        }
        assert forall|j: int| 0 <= j < at implies init[j] < offset by {
            assert(init[j] == positions[j]);
        }
        assert forall|j: int| at <= j < init.len() implies init[j] >= offset by {
            assert(init[j] == positions[j]);
        }
        lemma_lower_bound(init, offset, at);
    }
}

/// Marking keeps the offsets valid, adds exactly `offset` where it is in range,
/// and leaves it marked.
pub proof fn lemma_marked(row_count: u32, positions: Seq<u32>, offset: u32)
    requires
        valid_positions(row_count, positions),
    ensures
        valid_positions(row_count, marked(row_count, positions, offset)),
        marked(row_count, positions, offset).to_set() == if offset < row_count {
            positions.to_set().insert(offset)
        } else {
            positions.to_set()
        },
        offset < row_count ==> marked(row_count, positions, offset).contains(offset),
{
    let after = marked(row_count, positions, offset);
    if offset >= row_count {
    } else if positions.contains(offset) {
        assert(positions.to_set().insert(offset) =~= positions.to_set());
    } else {
        let at = lower_bound(positions, offset);
        lemma_lower_bound_parts(positions, offset);
        assert(after[at] == offset);
        assert forall|i: int, j: int| 0 <= i < j < after.len() implies after[i] < after[j] by {
            if j < at {
            } else if j == at {
            } else if i < at {
                assert(positions[j - 1] >= offset);
            } else if i == at {
                assert(positions[j - 1] >= offset);
                assert(positions.contains(positions[j - 1]));
            } else {
                assert(positions[i - 1] < positions[j - 1]);
            }
        }
        assert forall|i: int| 0 <= i < after.len() implies after[i] < row_count by {
            if i < at {
            } else if i == at {
            } else {
                assert(after[i] == positions[i - 1]);
            }
        }
        assert forall|x: u32| after.to_set().contains(x) <==> positions.to_set().insert(
            offset,
        ).contains(x) by {
            if after.to_set().contains(x) {
                let i = choose|i: int| 0 <= i < after.len() && after[i] == x;
                if i < at {
                    assert(positions[i] == x);
                } else if i > at {
                    assert(positions[i - 1] == x);
                }
            }
            if positions.to_set().contains(x) {
                let i = choose|i: int| 0 <= i < positions.len() && positions[i] == x;
                if i < at {
                    assert(after[i] == x);
                } else {
                    assert(after[i + 1] == x);
                }
            }
        }
        assert(after.to_set() =~= positions.to_set().insert(offset));
    }
}

/// The lower bound parts a strictly ascending sequence: below it the elements
/// are smaller than `offset`, from it on they are not.
pub proof fn lemma_lower_bound_parts(positions: Seq<u32>, offset: u32)
    requires
        strictly_increasing(positions),
    ensures
        0 <= lower_bound(positions, offset) <= positions.len(),
        forall|j: int| 0 <= j < lower_bound(positions, offset) ==> positions[j] < offset,
        forall|j: int|
            lower_bound(positions, offset) <= j < positions.len() ==> positions[j] >= offset,
    decreases positions.len(),
{
    if positions.len() == 0 {
    } else if positions.last() < offset {
        assert forall|j: int| 0 <= j < positions.len() implies positions[j] < offset by {
            if j < positions.len() - 1 {
                assert(positions[j] < positions[positions.len() - 1]);
            }
        }
    } else {
        let init = positions.drop_last();
        lemma_lower_bound_parts(init, offset);
        let at = lower_bound(init, offset);
        assert forall|j: int| 0 <= j < at implies positions[j] < offset by {
            assert(init[j] == positions[j]);
        }
        assert forall|j: int| at <= j < positions.len() implies positions[j] >= offset by {
            if j < init.len() {
                assert(init[j] == positions[j]);
            }
        }
    }
}

/// The four bytes that open every deletion-vector blob.
pub open spec fn blob_magic() -> Seq<u8> {
    seq![0xD1u8, 0xD3u8, 0x39u8, 0x64u8]
}

/// The offsets as bytes: four for each, little-endian, in order.
pub open spec fn encode_positions(positions: Seq<u32>) -> Seq<u8>
    decreases positions.len(),
{
    if positions.len() == 0 {
        Seq::<u8>::empty()
    } else {
        encode_positions(positions.drop_last()) + spec_u32_to_le_bytes(positions.last())
    }
}

/// The offsets that `count` groups of four bytes starting at byte 12 spell.
pub open spec fn decode_positions(bytes: Seq<u8>, count: int) -> Seq<u32> {
    Seq::new(
        count as nat,
        |i: int| spec_u32_from_le_bytes(bytes.subrange(12 + 4 * i, 16 + 4 * i)),
    )
}

/// The blob without its checksum: magic, row count, number of offsets, offsets.
pub open spec fn blob_body(row_count: u32, positions: Seq<u32>) -> Seq<u8> {
    blob_magic() + spec_u32_to_le_bytes(row_count) + spec_u32_to_le_bytes(positions.len() as u32)
        + encode_positions(positions)
}

/// The blob of a deletion vector: its body, then the body's checksum.
pub open spec fn blob_of(row_count: u32, positions: Seq<u32>) -> Seq<u8> {
    blob_body(row_count, positions) + spec_u32_to_le_bytes(
        adler32(blob_body(row_count, positions)),
    )
}

/// Why a blob is not a deletion vector.
#[derive(Clone, Copy, Debug, PartialEq, Eq, Structural)]
pub enum BlobError {
    /// Shorter than the shortest blob, or not a whole number of offsets.
    Truncated,
    /// The first four bytes are not the magic.
    BadMagic,
    /// The length does not match the number of offsets announced.
    LengthMismatch,
    /// The checksum at the end is not that of the bytes before it.
    ChecksumMismatch,
    /// The offsets are not strictly ascending, or one is beyond the row count.
    InvalidPositions,
}

/// What a blob means: the row count and the sorted offsets it carries, or the
/// first fault found, the faults taken in the order of [`BlobError`].
pub open spec fn parse_blob(bytes: Seq<u8>) -> Result<(u32, Seq<u32>), BlobError> {
    if bytes.len() < 16 {
        Err(BlobError::Truncated)
    } else if bytes.subrange(0, 4) != blob_magic() {
        Err(BlobError::BadMagic)
    } else {
        let row_count = spec_u32_from_le_bytes(bytes.subrange(4, 8));
        let count = spec_u32_from_le_bytes(bytes.subrange(8, 12));
        if bytes.len() != 16 + 4 * count {
            Err(BlobError::LengthMismatch)
        } else if spec_u32_from_le_bytes(bytes.subrange(bytes.len() - 4, bytes.len() as int))
            != adler32(bytes.subrange(0, bytes.len() - 4)) {
            Err(BlobError::ChecksumMismatch)
        } else if !valid_positions(row_count, decode_positions(bytes, count as int)) {
            Err(BlobError::InvalidPositions)
        } else {
            Ok((row_count, decode_positions(bytes, count as int)))
        }
    }
}

/// The encoded offsets take four bytes each, and each group of four spells its
/// offset.
pub proof fn lemma_encode_positions(positions: Seq<u32>)
    ensures
        encode_positions(positions).len() == 4 * positions.len(),
        forall|i: int|
            0 <= i < positions.len() ==> #[trigger] encode_positions(positions).subrange(
                4 * i,
                4 * i + 4,
            ) == spec_u32_to_le_bytes(positions[i]),
    decreases positions.len(),
{
    lemma_auto_spec_u32_to_from_le_bytes();
    if positions.len() > 0 {
        let init = positions.drop_last();
        lemma_encode_positions(init);
        let all = encode_positions(positions);
        assert forall|i: int| 0 <= i < positions.len() implies #[trigger] all.subrange(
            4 * i,
            4 * i + 4,
        ) == spec_u32_to_le_bytes(positions[i]) by {
            if i < init.len() {
                assert(all.subrange(4 * i, 4 * i + 4) =~= encode_positions(init).subrange(
                    4 * i,
                    4 * i + 4,
                ));
                assert(init[i] == positions[i]);
            } else {
                assert(all.subrange(4 * i, 4 * i + 4) =~= spec_u32_to_le_bytes(positions.last()));
            }
        }
    }
}

/// Reading a deletion vector's blob gives back its row count and offsets.
pub proof fn lemma_blob_round_trip(row_count: u32, positions: Seq<u32>)
    requires
        valid_positions(row_count, positions),
    ensures
        parse_blob(blob_of(row_count, positions)) == Ok::<(u32, Seq<u32>), BlobError>(
            (row_count, positions),
        ),
{
    lemma_auto_spec_u32_to_from_le_bytes();
    lemma_positions_bounded(row_count, positions);
    lemma_encode_positions(positions);
    let body = blob_body(row_count, positions);
    let bytes = blob_of(row_count, positions);
    let count = positions.len() as u32;
    assert(body.len() == 12 + 4 * positions.len());
    assert(bytes.len() == 16 + 4 * positions.len());
    assert(bytes.subrange(0, 4) =~= blob_magic());
    assert(bytes.subrange(4, 8) =~= spec_u32_to_le_bytes(row_count));
    assert(bytes.subrange(8, 12) =~= spec_u32_to_le_bytes(count));
    assert(bytes.subrange(0, bytes.len() - 4) =~= body);
    assert(bytes.subrange(bytes.len() - 4, bytes.len() as int) =~= spec_u32_to_le_bytes(
        adler32(body),
    ));
    let decoded = decode_positions(bytes, count as int);
    assert forall|i: int| 0 <= i < positions.len() implies decoded[i] == positions[i] by {
        assert(bytes.subrange(12 + 4 * i, 16 + 4 * i) =~= encode_positions(positions).subrange(
            4 * i,
            4 * i + 4,
        ));
    }
    assert(decoded =~= positions);
}

/// A blob that reads as a deletion vector is that vector's blob: no two blobs
/// carry the same vector.
pub proof fn lemma_blob_canonical(bytes: Seq<u8>)
    requires
        parse_blob(bytes) is Ok,
    ensures
        blob_of(parse_blob(bytes)->Ok_0.0, parse_blob(bytes)->Ok_0.1) == bytes,
{
    lemma_auto_spec_u32_to_from_le_bytes();
    let row_count = parse_blob(bytes)->Ok_0.0;
    let positions = parse_blob(bytes)->Ok_0.1;
    let count = spec_u32_from_le_bytes(bytes.subrange(8, 12));
    lemma_encode_positions(positions);
    let body = blob_body(row_count, positions);
    let again = blob_of(row_count, positions);
    assert(spec_u32_to_le_bytes(row_count) == bytes.subrange(4, 8));
    assert(spec_u32_to_le_bytes(count) == bytes.subrange(8, 12));
    assert(positions.len() == count);
    assert(body.len() == 12 + 4 * count);
    assert forall|k: int| 0 <= k < body.len() implies body[k] == bytes[k] by {
        if k < 4 {
            assert(bytes.subrange(0, 4)[k] == bytes[k]);
        } else if k < 8 {
            assert(bytes.subrange(4, 8)[k - 4] == bytes[k]);
        } else if k < 12 {
            assert(bytes.subrange(8, 12)[k - 8] == bytes[k]);
        } else {
            let i = (k - 12) / 4;
            let r = (k - 12) % 4;
            assert(0 <= i < count);
            let group = bytes.subrange(12 + 4 * i, 16 + 4 * i);
            assert(spec_u32_to_le_bytes(positions[i]) == group);
            assert(encode_positions(positions).subrange(4 * i, 4 * i + 4)[r] == encode_positions(
                positions,
            )[k - 12]);
            assert(group[r] == bytes[k]);
        }
    }
    assert(body =~= bytes.subrange(0, bytes.len() - 4));
    assert(spec_u32_to_le_bytes(adler32(body)) == bytes.subrange(
        bytes.len() - 4,
        bytes.len() as int,
    ));
    assert(again =~= bytes);
}

/// The deleted row offsets of one data file of `row_count` rows.
#[derive(Debug)]
pub struct DeletionVector {
    row_count: u32,
    positions: Vec<u32>,
}

impl View for DeletionVector {
    type V = Set<u32>;

    /// The set of deleted offsets.
    open spec fn view(&self) -> Set<u32> {
        self.positions().to_set()
    }
}

impl DeletionVector {
    /// The number of rows of the file.
    pub closed spec fn row_count(&self) -> u32 {
        self.row_count
    }

    /// The deleted offsets in ascending order.
    pub closed spec fn positions(&self) -> Seq<u32> {
        self.positions@
    }

    /// The invariant: the offsets are strictly ascending and inside the file.
    pub open spec fn wf(&self) -> bool {
        valid_positions(self.row_count(), self.positions())
    }

    /// The vector of a file of `row_count` rows with nothing deleted.
    pub fn new(row_count: u32) -> (dv: Self)
        ensures
            dv.wf(),
            dv.row_count() == row_count,
            dv.positions() == Seq::<u32>::empty(),
            dv@ == Set::<u32>::empty(),
    {
        let dv = DeletionVector { row_count, positions: Vec::new() };
        assert(dv.positions().to_set() =~= Set::<u32>::empty());
        dv
    }

    /// The number of rows of the file.
    pub fn max_rows(&self) -> (n: u32)
        ensures
            n == self.row_count(),
    {
        self.row_count
    }

    /// The number of deleted offsets.
    pub fn len(&self) -> (n: usize)
        ensures
            n == self.positions().len(),
    {
        self.positions.len()
    }

    /// Whether nothing is deleted.
    pub fn is_empty(&self) -> (b: bool)
        ensures
            b == (self.positions().len() == 0),
    {
        self.positions.len() == 0
    }

    fn search(&self, offset: u32) -> (at: usize)
        requires
            self.wf(),
        ensures
            at == lower_bound(self.positions(), offset),
            at <= self.positions().len(),
            forall|j: int| 0 <= j < at ==> self.positions()[j] < offset,
            forall|j: int| at <= j < self.positions().len() ==> self.positions()[j] >= offset,
    {
        let mut low: usize = 0;
        let mut high: usize = self.positions.len();
        while low < high
            invariant
                self.wf(),
                low <= high <= self.positions.len(),
                forall|j: int| 0 <= j < low ==> self.positions@[j] < offset,
                forall|j: int| high <= j < self.positions.len() ==> self.positions@[j] >= offset,
            decreases high - low,
        {
            let mid = low + (high - low) / 2;
            if self.positions[mid] < offset {
                assert forall|j: int| 0 <= j < mid + 1 implies self.positions@[j] < offset by {
                    if j < mid {
                        assert(self.positions@[j] < self.positions@[mid as int]);
                    }
                }
                low = mid + 1;
            } else {
                assert forall|j: int| mid <= j < self.positions.len() implies self.positions@[j]
                    >= offset by {
                    if j > mid {
                        assert(self.positions@[mid as int] < self.positions@[j]);
                    }
                }
                high = mid;
            }
        }
        proof {
            lemma_lower_bound(self.positions@, offset, low as int);
        }
        low
    }

    /// Whether `row_offset` is deleted.
    pub fn is_deleted(&self, row_offset: u32) -> (b: bool)
        requires
            self.wf(),
        ensures
            b == self@.contains(row_offset),
    {
        let at = self.search(row_offset);
        let found = at < self.positions.len() && self.positions[at] == row_offset;
        proof {
            if self@.contains(row_offset) {
                let k = choose|k: int|
                    0 <= k < self.positions@.len() && self.positions@[k] == row_offset;
                if k > at {
                    assert(self.positions@[at as int] < self.positions@[k]);
                }
            }
        }
        found
    }

    /// Marks `row_offset` deleted. An offset beyond the file's last row and
    /// one that is deleted already are reported and change nothing.
    pub fn mark_deleted(&mut self, row_offset: u32) -> (outcome: MarkOutcome)
        requires
            old(self).wf(),
        ensures
            final(self).wf(),
            final(self).row_count() == old(self).row_count(),
            outcome == mark_outcome(old(self).row_count(), old(self).positions(), row_offset),
            final(self).positions() == marked(
                old(self).row_count(),
                old(self).positions(),
                row_offset,
            ),
            final(self)@ == if row_offset < old(self).row_count() {
                old(self)@.insert(row_offset)
            } else {
                old(self)@
            },
    {
        proof {
            lemma_marked(self.row_count, self.positions@, row_offset);
        }
        if row_offset >= self.row_count {
            return MarkOutcome::DeletionOutOfRange;
        }
        let at = self.search(row_offset);
        if at < self.positions.len() && self.positions[at] == row_offset {
            return MarkOutcome::DuplicateDelete;
        }
        proof {
            if self.positions@.contains(row_offset) {
                let k = choose|k: int|
                    0 <= k < self.positions@.len() && self.positions@[k] == row_offset;
                if k > at {
                    assert(self.positions@[at as int] < self.positions@[k]);
                }
            }
        }
        self.positions.insert(at, row_offset);
        MarkOutcome::Marked
    }

    /// The deleted offsets in ascending order.
    pub fn collect_deleted_rows(&self) -> (rows: Vec<u32>)
        ensures
            rows@ == self.positions(),
            rows@.to_set() == self@,
    {
        slice_to_vec(self.positions.as_slice())
    }

    /// The blob that carries this vector.
    pub fn serialize(&self) -> (blob: Vec<u8>)
        requires
            self.wf(),
        ensures
            blob@ == blob_of(self.row_count(), self.positions()),
    {
        proof {
            lemma_positions_bounded(self.row_count, self.positions@);
            lemma_auto_spec_u32_to_from_le_bytes();
        }
        let mut blob: Vec<u8> = Vec::new();
        blob.push(0xD1u8);
        blob.push(0xD3u8);
        blob.push(0x39u8);
        blob.push(0x64u8);
        let mut rows = u32_to_le_bytes(self.row_count);
        blob.append(&mut rows);
        let mut count = u32_to_le_bytes(self.positions.len() as u32);
        blob.append(&mut count);
        let ghost head = blob@;
        assert(head =~= blob_magic() + spec_u32_to_le_bytes(self.row_count) + spec_u32_to_le_bytes(
            self.positions@.len() as u32,
        ));
        let mut i: usize = 0;
        while i < self.positions.len()
            invariant
                i <= self.positions.len(),
                blob@ == head + encode_positions(self.positions@.take(i as int)),
            decreases self.positions.len() - i,
        {
            let mut group = u32_to_le_bytes(self.positions[i]);
            assert(self.positions@.take(i + 1).drop_last() =~= self.positions@.take(i as int));
            blob.append(&mut group);
            assert(blob@ =~= head + encode_positions(self.positions@.take(i + 1)));
            i += 1;
        }
        assert(self.positions@.take(i as int) =~= self.positions@);
        assert(blob@ =~= blob_body(self.row_count, self.positions@));
        let sum = checksum(blob.as_slice());
        let mut tail = u32_to_le_bytes(sum);
        blob.append(&mut tail);
        blob
    }

    /// Reads a vector from its blob. Fails on every sequence of bytes that is
    /// not the blob of a vector, with the first fault found.
    pub fn deserialize(blob: &[u8]) -> (read: Result<DeletionVector, BlobError>)
        ensures
            match read {
                Ok(dv) => dv.wf() && parse_blob(blob@) == Ok::<(u32, Seq<u32>), BlobError>(
                    (dv.row_count(), dv.positions()),
                ),
                Err(fault) => parse_blob(blob@) == Err::<(u32, Seq<u32>), BlobError>(fault),
            },
    {
        let n = blob.len();
        if n < 16 {
            return Err(BlobError::Truncated);
        }
        let magic = slice_subrange(blob, 0, 4);
        if !(magic[0] == 0xD1u8 && magic[1] == 0xD3u8 && magic[2] == 0x39u8 && magic[3] == 0x64u8) {
            assert(blob@.subrange(0, 4) != blob_magic()) by {
                if blob@.subrange(0, 4) == blob_magic() {
                    assert(blob_magic()[0] == 0xD1u8);
                    assert(blob_magic()[1] == 0xD3u8);
                    assert(blob_magic()[2] == 0x39u8);
                    assert(blob_magic()[3] == 0x64u8);
                }
            }
            return Err(BlobError::BadMagic);
        }
        assert(blob@.subrange(0, 4) =~= blob_magic());
        let row_count = u32_from_le_bytes(slice_subrange(blob, 4, 8));
        let count = u32_from_le_bytes(slice_subrange(blob, 8, 12));
        if (n - 16) / 4 != count as usize || (n - 16) % 4 != 0 {
            return Err(BlobError::LengthMismatch);
        }
        let stored = u32_from_le_bytes(slice_subrange(blob, n - 4, n));
        let sum = checksum(slice_subrange(blob, 0, n - 4));
        if stored != sum {
            return Err(BlobError::ChecksumMismatch);
        }
        let ghost decoded = decode_positions(blob@, count as int);
        assert(parse_blob(blob@) == if valid_positions(row_count, decoded) {
            Ok::<(u32, Seq<u32>), BlobError>((row_count, decoded))
        } else {
            Err::<(u32, Seq<u32>), BlobError>(BlobError::InvalidPositions)
        });
        let mut positions: Vec<u32> = Vec::new();
        let mut i: usize = 0;
        while i < count as usize
            invariant
                i <= count,
                n == blob.len(),
                n == 16 + 4 * count,
                decoded == decode_positions(blob@, count as int),
                parse_blob(blob@) == if valid_positions(row_count, decoded) {
                    Ok::<(u32, Seq<u32>), BlobError>((row_count, decoded))
                } else {
                    Err::<(u32, Seq<u32>), BlobError>(BlobError::InvalidPositions)
                },
                positions@ == decoded.take(i as int),
                valid_positions(row_count, positions@),
            decreases count - i,
        {
            let position = u32_from_le_bytes(slice_subrange(blob, 12 + 4 * i, 16 + 4 * i));
            assert(position == decoded[i as int]);
            if position >= row_count {
                return Err(BlobError::InvalidPositions);
            }
            if i > 0 && positions[i - 1] >= position {
                assert(decoded[i - 1] == positions@[i - 1]);
                assert(!(decoded[i - 1] < decoded[i as int]));
                return Err(BlobError::InvalidPositions);
            }
            positions.push(position);
            assert(positions@ =~= decoded.take(i + 1));
            assert forall|a: int, b: int| 0 <= a < b < positions@.len() implies positions@[a]
                < positions@[b] by {
                if b < i {
                    assert(decoded.take(i as int)[a] < decoded.take(i as int)[b]);
                } else if a < i - 1 {
                    assert(decoded.take(i as int)[a] < decoded.take(i as int)[i - 1]);
                }
            }
            i += 1;
        }
        assert(decoded.take(i as int) =~= decoded);
        Ok(DeletionVector { row_count, positions })
    }
}

/// A vector read from the blob of another holds what the other holds.
pub proof fn lemma_round_trip(dv: DeletionVector, read: DeletionVector)
    requires
        dv.wf(),
        parse_blob(blob_of(dv.row_count(), dv.positions())) == Ok::<(u32, Seq<u32>), BlobError>(
            (read.row_count(), read.positions()),
        ),
    ensures
        read.positions() == dv.positions(),
        read.row_count() == dv.row_count(),
        read@ == dv@,
{
    lemma_blob_round_trip(dv.row_count(), dv.positions());
}

/// What is deleted says it all: two vectors of files of the same length with
/// the same offsets deleted list them in the same order and have the same
/// blob, in whatever order the offsets were marked.
pub proof fn lemma_same_set_same_blob(a: DeletionVector, b: DeletionVector)
    requires
        a.wf(),
        b.wf(),
        a.row_count() == b.row_count(),
        a@ == b@,
    ensures
        a.positions() == b.positions(),
        blob_of(a.row_count(), a.positions()) == blob_of(b.row_count(), b.positions()),
{
    lemma_positions_determined(a.positions(), b.positions());
}

/// Marking an offset a second time changes nothing.
pub proof fn lemma_mark_idempotent(row_count: u32, positions: Seq<u32>, offset: u32)
    requires
        valid_positions(row_count, positions),
    ensures
        marked(row_count, marked(row_count, positions, offset), offset) == marked(
            row_count,
            positions,
            offset,
        ),
        mark_outcome(row_count, marked(row_count, positions, offset), offset)
            != MarkOutcome::Marked,
{
    lemma_marked(row_count, positions, offset);
}

} // verus!
