//! The write-ahead log: the accepted mutations and the commit markers, in the
//! order of their acceptance, together with the bytes that make them durable.
//!
//! The log holds at most `capacity` bytes. A record that does not fit, that
//! cannot be written, or whose commit LSN does not lie above the last one is
//! refused, and the log stays as it was.

use crate::buffer::reversed;
use crate::codec::{
    decode_log, encodable, encode_frame, encode_log, lemma_encode_log_concat, parse_log,
    record_frame, records_view, DecodeError, RecordView, WalRecord,
};
use vstd::prelude::*;

verus! {

/// Why the log refused a record, or could not be read.
#[derive(Clone, Copy, Debug, PartialEq, Eq, Structural)]
pub enum WalError {
    /// A commit marker whose LSN is not above the last commit's.
    LsnOutOfOrder,
    /// A record with a length inside that 32 bits cannot hold.
    RecordTooLarge,
    /// The record does not fit in what is left of the log's capacity.
    Full,
    /// The bytes are not those of a log.
    Corrupt,
}

/// Where the replay after `lsn` starts: behind the last commit marker at or
/// below `lsn`, or at the first record where there is no such marker.
pub open spec fn cut(records: Seq<RecordView>, lsn: u64) -> int
    decreases records.len(),
{
    if records.len() == 0 {
        0
    } else if records.last() matches RecordView::Commit(at) && at <= lsn {
        records.len() as int
    } else {
        cut(records.drop_last(), lsn)
    }
}

/// The LSN of the last commit marker among the records, if there is one.
pub open spec fn last_marker(records: Seq<RecordView>) -> Option<u64>
    decreases records.len(),
{
    if records.len() == 0 {
        None
    } else if records.last() is Commit {
        Some(records.last()->Commit_0)
    } else {
        last_marker(records.drop_last())
    }
}

/// Whether the commit markers among the records carry strictly increasing
/// LSNs.
pub open spec fn ordered(records: Seq<RecordView>) -> bool {
    forall|i: int, j: int|
        0 <= i < j < records.len() ==> ((#[trigger] records[i]) matches RecordView::Commit(a) ==> (
        (#[trigger] records[j]) matches RecordView::Commit(b) ==> a < b))
}

/// The state of a log: its records, the LSN of the last commit it accepted
/// (which outlives the truncation of the marker), and its capacity in bytes.
pub struct WalView {
    pub records: Seq<RecordView>,
    pub last_lsn: Option<u64>,
    pub capacity: nat,
}

impl WalView {
    /// The invariant: every record can be written, the bytes of all fit in the
    /// capacity, the commit LSNs increase strictly and none lies above the
    /// last one accepted.
    pub open spec fn wf(self) -> bool {
        &&& forall|i: int| 0 <= i < self.records.len() ==> encodable(#[trigger] self.records[i])
        &&& encode_log(self.records).len() <= self.capacity
        &&& ordered(self.records)
        &&& forall|i: int|
            0 <= i < self.records.len() ==> ((#[trigger] self.records[i]) matches RecordView::Commit(
                at,
            ) ==> self.last_lsn matches Some(last) && at <= last)
    }

    /// Why the log refuses `record`, if it does; the faults in the order of
    /// [`WalError`].
    pub open spec fn fault(self, record: RecordView) -> Option<WalError> {
        if record matches RecordView::Commit(at) && self.last_lsn matches Some(last) && at
            <= last {
            Some(WalError::LsnOutOfOrder)
        } else if !encodable(record) {
            Some(WalError::RecordTooLarge)
        } else if encode_log(self.records).len() + encode_frame(record).len() > self.capacity {
            Some(WalError::Full)
        } else {
            None
        }
    }

    /// The log after `record` is offered: with the record at its end where it
    /// is accepted, as it was where it is refused.
    pub open spec fn appended(self, record: RecordView) -> WalView {
        if self.fault(record).is_some() {
            self
        } else {
            WalView {
                records: self.records.push(record),
                last_lsn: if record is Commit {
                    Some(record->Commit_0)
                } else {
                    self.last_lsn
                },
                capacity: self.capacity,
            }
        }
    }

    /// The records that a replay after `lsn` yields.
    pub open spec fn replay(self, lsn: u64) -> Seq<RecordView> {
        self.records.skip(cut(self.records, lsn))
    }

    /// The log after its replay pointer moves past `lsn`: the records up to
    /// the last commit marker at or below `lsn` are gone.
    pub open spec fn truncated(self, lsn: u64) -> WalView {
        WalView { records: self.replay(lsn), ..self }
    }
}

/// Whether records can make up a log of the given capacity that was truncated
/// at `floor`: every record can be written, the commit LSNs increase strictly
/// and lie above `floor`, and the bytes of all fit in the capacity.
pub open spec fn restorable(records: Seq<RecordView>, floor: Option<u64>, capacity: nat) -> bool {
    &&& forall|i: int| 0 <= i < records.len() ==> encodable(#[trigger] records[i])
    &&& ordered(records)
    &&& forall|i: int|
        0 <= i < records.len() ==> ((#[trigger] records[i]) matches RecordView::Commit(at) ==> (
        floor matches Some(below) ==> below < at))
    &&& encode_log(records).len() <= capacity
}

/// The LSN of the last commit that a log knows of: that of its last commit
/// marker, or, where it holds none, the LSN at which it was truncated.
pub open spec fn last_known(records: Seq<RecordView>, floor: Option<u64>) -> Option<u64> {
    if last_marker(records) is Some {
        last_marker(records)
    } else {
        floor
    }
}

/// The last commit marker is one of the records, and no commit marker stands
/// behind it.
pub proof fn lemma_last_marker(records: Seq<RecordView>)
    ensures
        last_marker(records) matches Some(at) ==> exists|j: int|
            0 <= j < records.len() && #[trigger] records[j] == RecordView::Commit(at),
        last_marker(records) is None ==> forall|j: int|
            0 <= j < records.len() ==> !((#[trigger] records[j]) is Commit),
    decreases records.len(),
{
    if records.len() == 0 {
    } else if records.last() is Commit {
        assert(records[records.len() - 1] == RecordView::Commit(records.last()->Commit_0));
    } else {
        let init = records.drop_last();
        lemma_last_marker(init);
        if last_marker(init) is Some {
            let at = last_marker(init).unwrap();
            let j = choose|j: int|
                0 <= j < init.len() && #[trigger] init[j] == RecordView::Commit(at);
            assert(records[j] == RecordView::Commit(at));
        } else {
            assert forall|j: int| 0 <= j < records.len() implies !((
            #[trigger] records[j]) is Commit) by {
                if j < init.len() {
                    assert(init[j] == records[j]);
                }
            }
        }
    }
}

/// The last commit marker of the records from index `k` on is the last commit
/// marker of all the records where one of them is a commit marker, and
/// there is none where none is.
pub proof fn lemma_last_marker_skip(records: Seq<RecordView>, k: int)
    requires
        0 <= k <= records.len(),
    ensures
        (exists|j: int| k <= j < records.len() && (#[trigger] records[j]) is Commit)
            ==> last_marker(records.skip(k)) == last_marker(records),
        (forall|j: int| k <= j < records.len() ==> !((#[trigger] records[j]) is Commit))
            ==> last_marker(records.skip(k)) is None,
    decreases records.len(),
{
    if k == records.len() {
        assert(records.skip(k) =~= Seq::<RecordView>::empty());
    } else {
        let init = records.drop_last();
        lemma_last_marker_skip(init, k);
        assert(records.skip(k).last() == records.last());
        assert(records.skip(k).drop_last() =~= init.skip(k));
        if records.last() is Commit {
            assert(records[records.len() - 1] is Commit);
        } else {
            if exists|j: int| k <= j < records.len() && (#[trigger] records[j]) is Commit {
                let j = choose|j: int| k <= j < records.len() && (#[trigger] records[j]) is Commit;
                assert(init[j] is Commit);
            } else {
                assert forall|j: int| k <= j < init.len() implies !((
                #[trigger] init[j]) is Commit) by {
                    assert(init[j] == records[j]);
                }
            }
        }
    }
}

/// The replay starts inside the log.
pub proof fn lemma_cut_bounds(records: Seq<RecordView>, lsn: u64)
    ensures
        0 <= cut(records, lsn) <= records.len(),
    decreases records.len(),
{
    if records.len() > 0 {
        lemma_cut_bounds(records.drop_last(), lsn);
    }
}

/// Accepting a record keeps the invariant.
pub proof fn lemma_appended_wf(wal: WalView, record: RecordView)
    requires
        wal.wf(),
    ensures
        wal.appended(record).wf(),
{
    let next = wal.appended(record);
    if wal.fault(record).is_none() {
        assert(next.records.drop_last() =~= wal.records);
        assert forall|i: int| 0 <= i < next.records.len() implies encodable(
            #[trigger] next.records[i],
        ) by {
            if i < wal.records.len() {
                assert(next.records[i] == wal.records[i]);
            }
        }
        assert forall|i: int, j: int| 0 <= i < j < next.records.len() implies ((
        #[trigger] next.records[i]) matches RecordView::Commit(a) ==> ((
        #[trigger] next.records[j]) matches RecordView::Commit(b) ==> a < b)) by {
            assert(next.records[i] == wal.records[i]);
            if j < wal.records.len() {
                assert(next.records[j] == wal.records[j]);
            }
        }
        assert forall|i: int| 0 <= i < next.records.len() implies ((
        #[trigger] next.records[i]) matches RecordView::Commit(at) ==> next.last_lsn matches Some(
            last,
        ) && at <= last) by {
            if i < wal.records.len() {
                assert(next.records[i] == wal.records[i]);
            }
        }
    }
}

/// Truncating keeps the invariant.
pub proof fn lemma_truncated_wf(wal: WalView, lsn: u64)
    requires
        wal.wf(),
    ensures
        wal.truncated(lsn).wf(),
{
    let k = cut(wal.records, lsn);
    lemma_cut_bounds(wal.records, lsn);
    let next = wal.truncated(lsn);
    lemma_encode_log_concat(wal.records.take(k), wal.records.skip(k));
    assert(wal.records.take(k) + wal.records.skip(k) =~= wal.records);
    assert forall|i: int| 0 <= i < next.records.len() implies encodable(
        #[trigger] next.records[i],
    ) by {
        assert(next.records[i] == wal.records[i + k]);
    }
    assert forall|i: int, j: int| 0 <= i < j < next.records.len() implies ((
    #[trigger] next.records[i]) matches RecordView::Commit(a) ==> ((
    #[trigger] next.records[j]) matches RecordView::Commit(b) ==> a < b)) by {
        assert(next.records[i] == wal.records[i + k]);
        assert(next.records[j] == wal.records[j + k]);
    }
    assert forall|i: int| 0 <= i < next.records.len() implies ((
    #[trigger] next.records[i]) matches RecordView::Commit(at) ==> next.last_lsn matches Some(
        last,
    ) && at <= last) by {
        assert(next.records[i] == wal.records[i + k]);
    }
}

/// The write-ahead log of one table.
#[derive(Debug)]
pub struct Wal {
    capacity: usize,
    records: Vec<WalRecord>,
    bytes: Vec<u8>,
    last_lsn: Option<u64>,
}

impl View for Wal {
    type V = WalView;

    closed spec fn view(&self) -> WalView {
        WalView {
            records: records_view(self.records@),
            last_lsn: self.last_lsn,
            capacity: self.capacity as nat,
        }
    }
}

impl Wal {
    /// The bytes that make the log durable.
    pub closed spec fn image(&self) -> Seq<u8> {
        self.bytes@
    }

    /// The invariant of the log: that of its state, and the durable bytes are
    /// the frames of its records.
    pub open spec fn wf(&self) -> bool {
        &&& self@.wf()
        &&& self.image() == encode_log(self@.records)
    }

    /// An empty log that holds at most `capacity` bytes.
    pub fn new(capacity: usize) -> (wal: Self)
        ensures
            wal.wf(),
            wal@ == (WalView {
                records: Seq::<RecordView>::empty(),
                last_lsn: None,
                capacity: capacity as nat,
            }),
    {
        let wal = Wal { capacity, records: Vec::new(), bytes: Vec::new(), last_lsn: None };
        assert(wal@.records =~= Seq::<RecordView>::empty());
        wal
    }

    /// The log that the bytes of a durable image spell, for a log that was
    /// truncated at `floor` before. A frame at the end of the image that was
    /// not written to its end is left out. Fails where the image does not
    /// read as records, and where the records cannot make up a log.
    pub fn recover(capacity: usize, floor: Option<u64>, image: &[u8]) -> (out: Result<
        Wal,
        WalError,
    >)
        ensures
            match out {
                Ok(wal) => {
                    &&& wal.wf()
                    &&& parse_log(image@) == Ok::<Seq<RecordView>, DecodeError>(wal@.records)
                    &&& restorable(wal@.records, floor, capacity as nat)
                    &&& wal@.capacity == capacity
                    &&& wal@.last_lsn == last_known(wal@.records, floor)
                },
                Err(fault) => {
                    &&& fault == WalError::Corrupt
                    &&& parse_log(image@) matches Ok(records) ==> !restorable(
                        records,
                        floor,
                        capacity as nat,
                    )
                },
            },
    {
        let records = match decode_log(image) {
            Err(_) => {
                return Err(WalError::Corrupt);
            },
            Ok(records) => records,
        };
        let ghost all = records_view(records@);
        let mut wal = Wal { capacity, records: Vec::new(), bytes: Vec::new(), last_lsn: floor };
        assert(wal@.records =~= Seq::<RecordView>::empty());
        let n = records.len();
        let mut rest = reversed(records);
        let mut i: usize = 0;
        assert(all.take(0) =~= Seq::<RecordView>::empty());
        while i < n
            invariant
                i <= n,
                n == all.len(),
                parse_log(image@) == Ok::<Seq<RecordView>, DecodeError>(all),
                rest@.len() == n - i,
                forall|k: int| 0 <= k < n - i ==> (#[trigger] rest@[k])@ == all[n - 1 - k],
                wal.wf(),
                wal@.records == all.take(i as int),
                wal@.capacity == capacity,
                wal@.last_lsn == last_known(all.take(i as int), floor),
                forall|k: int|
                    0 <= k < i ==> ((#[trigger] all[k]) matches RecordView::Commit(at) ==> (
                    floor matches Some(below) ==> below < at)),
            decreases n - i,
        {
            assert(rest@[n - i - 1]@ == all[i as int]);
            let record = rest.pop().unwrap();
            let ghost before = wal@;
            proof {
                assert(all.take(i + 1).drop_last() =~= all.take(i as int));
                assert(all.take(i + 1).last() == all[i as int]);
                assert(all.take(i + 1) =~= all.take(i as int).push(all[i as int]));
                lemma_last_marker(all.take(i as int));
                lemma_encode_log_concat(all.take(i + 1), all.skip(i + 1));
                assert(all.take(i + 1) + all.skip(i + 1) =~= all);
            }
            match wal.append(record) {
                Err(fault) => {
                    proof {
                        if fault == WalError::LsnOutOfOrder {
                            let at = all[i as int]->Commit_0;
                            if last_marker(all.take(i as int)) is Some {
                                let last = last_marker(all.take(i as int)).unwrap();
                                let j = choose|j: int|
                                    0 <= j < all.take(i as int).len() && #[trigger] all.take(
                                        i as int,
                                    )[j] == RecordView::Commit(last);
                                assert(all[j] == RecordView::Commit(last));
                                assert(!(all[j] matches RecordView::Commit(a) ==> (
                                all[i as int] matches RecordView::Commit(b) ==> a < b)));
                            }
                        }
                    }
                    return Err(WalError::Corrupt);
                },
                Ok(_) => {},
            }
            i += 1;
        }
        assert(all.take(n as int) =~= all);
        Ok(wal)
    }

    /// The LSN of the last commit that the log accepted.
    pub fn last_lsn(&self) -> (lsn: Option<u64>)
        ensures
            lsn == self@.last_lsn,
    {
        self.last_lsn
    }

    /// The LSN of the last commit marker that the log holds, if it holds one.
    pub fn last_marker(&self) -> (lsn: Option<u64>)
        ensures
            lsn == last_marker(self@.records),
    {
        let ghost all = self@.records;
        let mut k: usize = self.records.len();
        assert(all.take(k as int) =~= all);
        while k > 0
            invariant
                k <= self.records.len(),
                all == self@.records,
                last_marker(all) == last_marker(all.take(k as int)),
            decreases k,
        {
            assert(all.take(k as int).last() == all[k - 1]);
            assert(all.take(k as int).drop_last() =~= all.take(k - 1));
            match &self.records[k - 1] {
                WalRecord::Commit(at) => {
                    return Some(*at);
                },
                _ => {},
            }
            k -= 1;
        }
        None
    }

    /// The number of bytes that the log may hold.
    pub fn capacity(&self) -> (capacity: usize)
        ensures
            capacity == self@.capacity,
    {
        self.capacity
    }

    /// The number of records held.
    pub fn len(&self) -> (n: usize)
        ensures
            n == self@.records.len(),
    {
        self.records.len()
    }

    /// The bytes that make the log durable: the frames of its records.
    pub fn bytes(&self) -> (bytes: &Vec<u8>)
        ensures
            bytes@ == self.image(),
    {
        &self.bytes
    }

    /// Offers a record to the log. An accepted record stands at the end of the
    /// log and in its durable bytes; a refused one leaves the log as it was.
    pub fn append(&mut self, record: WalRecord) -> (done: Result<(), WalError>)
        requires
            old(self).wf(),
        ensures
            final(self).wf(),
            final(self)@ == old(self)@.appended(record@),
            match done {
                Ok(_) => old(self)@.fault(record@).is_none(),
                Err(fault) => old(self)@.fault(record@) == Some(fault) && final(self).image()
                    == old(self).image(),
            },
    {
        proof {
            lemma_appended_wf(self@, record@);
        }
        match (&record, self.last_lsn) {
            (WalRecord::Commit(at), Some(last)) => {
                if *at <= last {
                    return Err(WalError::LsnOutOfOrder);
                }
            },
            _ => {},
        }
        let mut frame = match record_frame(&record) {
            None => {
                return Err(WalError::RecordTooLarge);
            },
            Some(frame) => frame,
        };
        if frame.len() > self.capacity - self.bytes.len() {
            return Err(WalError::Full);
        }
        match &record {
            WalRecord::Commit(at) => {
                self.last_lsn = Some(*at);
            },
            _ => {},
        }
        self.bytes.append(&mut frame);
        self.records.push(record);
        assert(self@.records =~= old(self)@.records.push(record@));
        assert(self@.records.drop_last() =~= old(self)@.records);
        Ok(())
    }

    /// Offers the commit marker of `lsn` to the log.
    pub fn commit_marker(&mut self, lsn: u64) -> (done: Result<(), WalError>)
        requires
            old(self).wf(),
        ensures
            final(self).wf(),
            final(self)@ == old(self)@.appended(RecordView::Commit(lsn)),
            match done {
                Ok(_) => old(self)@.fault(RecordView::Commit(lsn)).is_none(),
                Err(fault) => old(self)@.fault(RecordView::Commit(lsn)) == Some(fault)
                    && final(self).image() == old(self).image(),
            },
    {
        self.append(WalRecord::Commit(lsn))
    }

    fn cut_at(&self, lsn: u64) -> (k: usize)
        ensures
            k == cut(self@.records, lsn),
            k <= self.records.len(),
    {
        let ghost all = self@.records;
        let mut k: usize = self.records.len();
        assert(all.take(k as int) =~= all);
        while k > 0
            invariant
                k <= self.records.len(),
                all == self@.records,
                cut(all, lsn) == cut(all.take(k as int), lsn),
            decreases k,
        {
            match &self.records[k - 1] {
                WalRecord::Commit(at) => {
                    if *at <= lsn {
                        assert(all.take(k as int).last() == all[k - 1]);
                        return k;
                    }
                },
                _ => {},
            }
            assert(all.take(k as int).last() == all[k - 1]);
            assert(all.take(k as int).drop_last() =~= all.take(k - 1));
            k -= 1;
        }
        k
    }

    /// All the records held, in the order of their acceptance.
    pub fn records(&self) -> (records: Vec<WalRecord>)
        ensures
            records_view(records@) == self@.records,
    {
        let mut records: Vec<WalRecord> = Vec::new();
        let mut i: usize = 0;
        while i < self.records.len()
            invariant
                i <= self.records.len(),
                records.len() == i,
                forall|j: int| 0 <= j < i ==> (#[trigger] records@[j])@ == self.records@[j]@,
            decreases self.records.len() - i,
        {
            records.push(self.records[i].clone());
            i += 1;
        }
        assert(records_view(records@) =~= self@.records);
        records
    }

    /// The records behind the last commit marker at or below `from_lsn`, in
    /// the order of their acceptance: all the records where there is no such
    /// marker.
    pub fn replay(&self, from_lsn: u64) -> (records: Vec<WalRecord>)
        ensures
            records_view(records@) == self@.replay(from_lsn),
    {
        let k = self.cut_at(from_lsn);
        let mut records: Vec<WalRecord> = Vec::new();
        let mut i: usize = k;
        while i < self.records.len()
            invariant
                k <= i <= self.records.len(),
                records.len() == i - k,
                forall|j: int| 0 <= j < i - k ==> (#[trigger] records@[j])@ == self.records@[j + k]@,
            decreases self.records.len() - i,
        {
            records.push(self.records[i].clone());
            i += 1;
        }
        assert(records_view(records@) =~= self@.replay(from_lsn));
        records
    }

    /// Moves the replay pointer past `lsn`: the records up to the last commit
    /// marker at or below `lsn` leave the log and its durable bytes.
    pub fn truncate(&mut self, lsn: u64)
        requires
            old(self).wf(),
        ensures
            final(self).wf(),
            final(self)@ == old(self)@.truncated(lsn),
    {
        let ghost before = self@;
        proof {
            lemma_truncated_wf(before, lsn);
        }
        let k = self.cut_at(lsn);
        let kept = self.records.split_off(k);
        self.records = kept;
        assert(self@.records =~= before.truncated(lsn).records);
        let mut bytes: Vec<u8> = Vec::new();
        let mut i: usize = 0;
        let ghost rest = self@.records;
        assert(rest.take(0) =~= Seq::<RecordView>::empty());
        while i < self.records.len()
            invariant
                i <= self.records.len(),
                rest == self@.records,
                self@ == before.truncated(lsn),
                self@.wf(),
                bytes@ == encode_log(rest.take(i as int)),
            decreases self.records.len() - i,
        {
            assert(encodable(rest[i as int]));
            let mut frame = record_frame(&self.records[i]).unwrap();
            assert(rest.take(i + 1).drop_last() =~= rest.take(i as int));
            bytes.append(&mut frame);
            i += 1;
        }
        assert(rest.take(i as int) =~= rest);
        self.bytes = bytes;
    }
}

} // verus!
