//! The mutable buffer: appended rows gathered in batches, sealed when full or
//! at a commit, and flushed batch by batch into immutable data files.
//!
//! The batches stand in the order of their making; the sequence number of a
//! batch is its place in that order. A flushed batch leaves the buffer, so no
//! batch is flushed twice.

use crate::codec::{records_view, RecordView, WalRecord};
use crate::row::{MoonlinkRow, Value};
use vstd::prelude::*;

verus! {

/// One batch as the contracts see it: its rows in order, the LSN of the
/// commit that made it eligible for flushing (none before the commit), and
/// whether it is sealed.
pub struct BatchView {
    pub rows: Seq<Seq<Value>>,
    pub lsn: Option<u64>,
    pub sealed: bool,
}

/// The batches after a row is appended: the row joins the open batch, or
/// starts a new one where the last batch is sealed; a batch that reaches
/// `batch_size` rows is sealed.
pub open spec fn appended(batches: Seq<BatchView>, batch_size: nat, row: Seq<Value>) -> Seq<
    BatchView,
> {
    if batches.len() > 0 && !batches.last().sealed {
        let rows = batches.last().rows.push(row);
        batches.drop_last().push(
            BatchView { rows, lsn: batches.last().lsn, sealed: rows.len() >= batch_size },
        )
    } else {
        batches.push(BatchView { rows: seq![row], lsn: None, sealed: batch_size <= 1 })
    }
}

/// A batch after a commit under `lsn`: sealed, and eligible under `lsn`
/// unless an earlier commit made it eligible already.
pub open spec fn commit_batch(batch: BatchView, lsn: u64) -> BatchView {
    BatchView {
        rows: batch.rows,
        lsn: if batch.lsn is None {
            Some(lsn)
        } else {
            batch.lsn
        },
        sealed: true,
    }
}

/// The batches after a commit under `lsn`.
pub open spec fn committed(batches: Seq<BatchView>, lsn: u64) -> Seq<BatchView> {
    Seq::new(batches.len(), |i: int| commit_batch(batches[i], lsn))
}

/// Whether a batch may be flushed at `lsn`: it was committed at or below it.
pub open spec fn eligible(batch: BatchView, lsn: u64) -> bool {
    batch.lsn matches Some(at) && at <= lsn
}

/// The number of batches that a flush at `lsn` takes: the leading batches that
/// are eligible.
pub open spec fn flush_count(batches: Seq<BatchView>, lsn: u64) -> nat
    decreases batches.len(),
{
    if batches.len() == 0 || !eligible(batches.first(), lsn) {
        0
    } else {
        1 + flush_count(batches.drop_first(), lsn)
    }
}

/// One data file as the contracts see it: the rows it holds, and the LSN of
/// the commit under which it was flushed.
pub struct FileView {
    pub rows: Seq<Seq<Value>>,
    pub lsn: u64,
}

/// The number of rows of a file as far as a 32-bit row offset can reach.
pub open spec fn reachable_rows(file: FileView) -> u32 {
    if file.rows.len() < u32::MAX {
        file.rows.len() as u32
    } else {
        u32::MAX
    }
}

/// The data file that a committed batch becomes.
pub open spec fn file_of(batch: BatchView) -> FileView {
    FileView { rows: batch.rows, lsn: batch.lsn.unwrap() }
}

/// The data files that batches become, one each, in order.
pub open spec fn files_of(batches: Seq<BatchView>) -> Seq<FileView> {
    Seq::new(batches.len(), |i: int| file_of(batches[i]))
}

/// All the rows of the batches, in order.
pub open spec fn buffered_rows(batches: Seq<BatchView>) -> Seq<Seq<Value>> {
    Seq::new(batches.len(), |i: int| batches[i].rows).flatten()
}

/// All the rows of the files, in order.
pub open spec fn stored_rows(files: Seq<FileView>) -> Seq<Seq<Value>> {
    Seq::new(files.len(), |i: int| files[i].rows).flatten()
}

/// The batches after one log record is applied: an appended row is appended,
/// a commit marker commits, a delete leaves the buffer as it is.
pub open spec fn applied(batches: Seq<BatchView>, batch_size: nat, record: RecordView) -> Seq<
    BatchView,
> {
    match record {
        RecordView::Append(row) => appended(batches, batch_size, row),
        RecordView::Commit(lsn) => committed(batches, lsn),
        RecordView::Delete(_) => batches,
    }
}

/// The batches that an empty buffer holds after the records are applied in
/// order.
pub open spec fn replayed(batch_size: nat, records: Seq<RecordView>) -> Seq<BatchView>
    decreases records.len(),
{
    if records.len() == 0 {
        Seq::<BatchView>::empty()
    } else {
        applied(replayed(batch_size, records.drop_last()), batch_size, records.last())
    }
}

/// The batches after the rows are appended in order.
pub open spec fn appended_all(batches: Seq<BatchView>, batch_size: nat, rows: Seq<Seq<Value>>) -> Seq<
    BatchView,
>
    decreases rows.len(),
{
    if rows.len() == 0 {
        batches
    } else {
        appended(appended_all(batches, batch_size, rows.drop_last()), batch_size, rows.last())
    }
}

/// Appending a row adds it behind all the rows of the buffer, whatever the
/// batch size.
pub proof fn lemma_appended_rows(batches: Seq<BatchView>, batch_size: nat, row: Seq<Value>)
    ensures
        buffered_rows(appended(batches, batch_size, row)) == buffered_rows(batches).push(row),
{
    let next = appended(batches, batch_size, row);
    let lists = Seq::new(batches.len(), |i: int| batches[i].rows);
    let next_lists = Seq::new(next.len(), |i: int| next[i].rows);
    if batches.len() > 0 && !batches.last().sealed {
        let init = lists.drop_last();
        assert(lists =~= init.push(batches.last().rows));
        assert(next_lists =~= init.push(batches.last().rows.push(row)));
        init.lemma_flatten_push(batches.last().rows);
        init.lemma_flatten_push(batches.last().rows.push(row));
        assert(init.flatten() + batches.last().rows.push(row) =~= (init.flatten()
            + batches.last().rows).push(row));
    } else {
        assert(next_lists =~= lists.push(seq![row]));
        lists.lemma_flatten_push(seq![row]);
        assert(lists.flatten() + seq![row] =~= lists.flatten().push(row));
    }
}

/// Appending rows adds them, in order, behind all the rows of the buffer.
pub proof fn lemma_appended_all_rows(
    batches: Seq<BatchView>,
    batch_size: nat,
    rows: Seq<Seq<Value>>,
)
    ensures
        buffered_rows(appended_all(batches, batch_size, rows)) == buffered_rows(batches) + rows,
    decreases rows.len(),
{
    if rows.len() == 0 {
        assert(buffered_rows(batches) + rows =~= buffered_rows(batches));
    } else {
        lemma_appended_all_rows(batches, batch_size, rows.drop_last());
        lemma_appended_rows(
            appended_all(batches, batch_size, rows.drop_last()),
            batch_size,
            rows.last(),
        );
        assert((buffered_rows(batches) + rows.drop_last()).push(rows.last()) =~= buffered_rows(
            batches,
        ) + rows);
    }
}

/// A commit moves no row.
pub proof fn lemma_committed_rows(batches: Seq<BatchView>, lsn: u64)
    ensures
        buffered_rows(committed(batches, lsn)) == buffered_rows(batches),
{
    let next = committed(batches, lsn);
    assert(Seq::new(next.len(), |i: int| next[i].rows) =~= Seq::new(
        batches.len(),
        |i: int| batches[i].rows,
    ));
}

/// Data files hold the rows of the batches they are made of.
pub proof fn lemma_files_rows(batches: Seq<BatchView>)
    ensures
        stored_rows(files_of(batches)) == buffered_rows(batches),
{
    let files = files_of(batches);
    assert(Seq::new(files.len(), |i: int| files[i].rows) =~= Seq::new(
        batches.len(),
        |i: int| batches[i].rows,
    ));
}

/// Where every batch is eligible, a flush takes them all.
pub proof fn lemma_flush_all(batches: Seq<BatchView>, lsn: u64)
    requires
        forall|i: int| 0 <= i < batches.len() ==> eligible(#[trigger] batches[i], lsn),
    ensures
        flush_count(batches, lsn) == batches.len(),
    decreases batches.len(),
{
    if batches.len() > 0 {
        let rest = batches.drop_first();
        assert forall|i: int| 0 <= i < rest.len() implies eligible(#[trigger] rest[i], lsn) by {
            assert(rest[i] == batches[i + 1]);
        }
        lemma_flush_all(rest, lsn);
    }
}

/// A flush takes leading batches only, all of them eligible, and stops at the
/// first that is not.
pub proof fn lemma_flush_count(batches: Seq<BatchView>, lsn: u64)
    ensures
        flush_count(batches, lsn) <= batches.len(),
        forall|i: int| 0 <= i < flush_count(batches, lsn) ==> eligible(#[trigger] batches[i], lsn),
        flush_count(batches, lsn) < batches.len() ==> !eligible(
            batches[flush_count(batches, lsn) as int],
            lsn,
        ),
    decreases batches.len(),
{
    if batches.len() == 0 || !eligible(batches.first(), lsn) {
    } else {
        let rest = batches.drop_first();
        lemma_flush_count(rest, lsn);
        assert forall|i: int| 0 <= i < flush_count(batches, lsn) implies eligible(
            #[trigger] batches[i],
            lsn,
        ) by {
            if i > 0 {
                assert(rest[i - 1] == batches[i]);
            }
        }
        if flush_count(batches, lsn) < batches.len() {
            assert(rest[flush_count(rest, lsn) as int] == batches[flush_count(batches, lsn) as int]);
        }
    }
}

/// Appends, however many and whatever the batch size, then one commit and one
/// flush under the same LSN: where nothing in the buffer was committed later
/// than that LSN, the flush empties the buffer, and the data files it makes
/// hold exactly the rows that were in the buffer and the rows appended, each
/// once, in the order of their appending.
pub proof fn lemma_append_commit_flush(
    batches: Seq<BatchView>,
    batch_size: nat,
    rows: Seq<Seq<Value>>,
    lsn: u64,
)
    requires
        forall|i: int|
            0 <= i < batches.len() ==> ((#[trigger] batches[i]).lsn matches Some(at) ==> at
                <= lsn),
    ensures
        ({
            let ready = committed(appended_all(batches, batch_size, rows), lsn);
            &&& flush_count(ready, lsn) == ready.len()
            &&& stored_rows(files_of(ready.take(flush_count(ready, lsn) as int)))
                == buffered_rows(batches) + rows
            &&& ready.skip(flush_count(ready, lsn) as int) == Seq::<BatchView>::empty()
        }),
{
    let grown = appended_all(batches, batch_size, rows);
    let ready = committed(grown, lsn);
    lemma_appended_all_bounded(batches, batch_size, rows, lsn);
    assert forall|i: int| 0 <= i < ready.len() implies eligible(#[trigger] ready[i], lsn) by {
        assert(grown[i].lsn matches Some(at) ==> at <= lsn);
    }
    lemma_flush_all(ready, lsn);
    assert(ready.take(ready.len() as int) =~= ready);
    assert(ready.skip(ready.len() as int) =~= Seq::<BatchView>::empty());
    lemma_files_rows(ready);
    lemma_committed_rows(grown, lsn);
    lemma_appended_all_rows(batches, batch_size, rows);
}

/// Appending commits nothing: no batch gets an LSN that it had not.
pub proof fn lemma_appended_all_bounded(
    batches: Seq<BatchView>,
    batch_size: nat,
    rows: Seq<Seq<Value>>,
    lsn: u64,
)
    requires
        forall|i: int|
            0 <= i < batches.len() ==> ((#[trigger] batches[i]).lsn matches Some(at) ==> at
                <= lsn),
    ensures
        forall|i: int|
            0 <= i < appended_all(batches, batch_size, rows).len() ==> ((
            #[trigger] appended_all(batches, batch_size, rows)[i]).lsn matches Some(at) ==> at
                <= lsn),
    decreases rows.len(),
{
    if rows.len() > 0 {
        lemma_appended_all_bounded(batches, batch_size, rows.drop_last(), lsn);
        let before = appended_all(batches, batch_size, rows.drop_last());
        let after = appended_all(batches, batch_size, rows);
        assert forall|i: int| 0 <= i < after.len() implies ((#[trigger] after[i]).lsn matches Some(
            at,
        ) ==> at <= lsn) by {
            if i < before.len() {
                assert(before[i].lsn matches Some(at) ==> at <= lsn);
            }
        }
    }
}

/// One batch of the buffer.
#[derive(Debug)]
pub struct Batch {
    rows: Vec<MoonlinkRow>,
    lsn: Option<u64>,
    sealed: bool,
}

/// The rows that a vector of rows stands for.
pub open spec fn rows_view(rows: Seq<MoonlinkRow>) -> Seq<Seq<Value>> {
    Seq::new(rows.len(), |i: int| rows[i]@)
}

impl View for Batch {
    type V = BatchView;

    closed spec fn view(&self) -> BatchView {
        BatchView { rows: rows_view(self.rows@), lsn: self.lsn, sealed: self.sealed }
    }
}

/// One immutable data file: the rows of one flushed batch.
#[derive(Debug)]
pub struct DataFile {
    rows: Vec<MoonlinkRow>,
    lsn: u64,
}

impl View for DataFile {
    type V = FileView;

    closed spec fn view(&self) -> FileView {
        FileView { rows: rows_view(self.rows@), lsn: self.lsn }
    }
}

impl DataFile {
    /// A data file that holds `rows`, flushed under `lsn`.
    pub fn new(rows: Vec<MoonlinkRow>, lsn: u64) -> (file: Self)
        ensures
            file@ == (FileView { rows: rows_view(rows@), lsn }),
    {
        DataFile { rows, lsn }
    }

    /// The number of rows.
    pub fn row_count(&self) -> (n: usize)
        ensures
            n == self@.rows.len(),
    {
        self.rows.len()
    }

    /// The number of rows as far as a 32-bit row offset can reach.
    pub fn reachable_rows(&self) -> (n: u32)
        ensures
            n == reachable_rows(self@),
    {
        if self.rows.len() < u32::MAX as usize {
            self.rows.len() as u32
        } else {
            u32::MAX
        }
    }

    /// The LSN of the commit under which the file was flushed.
    pub fn lsn(&self) -> (lsn: u64)
        ensures
            lsn == self@.lsn,
    {
        self.lsn
    }

    /// The rows of the file.
    pub fn rows(&self) -> (rows: &Vec<MoonlinkRow>)
        ensures
            rows_view(rows@) == self@.rows,
    {
        &self.rows
    }
}

/// The data files that a vector of data files stands for.
pub open spec fn files_view(files: Seq<DataFile>) -> Seq<FileView> {
    Seq::new(files.len(), |i: int| files[i]@)
}

spec fn batches_view(batches: Seq<Batch>) -> Seq<BatchView> {
    Seq::new(batches.len(), |i: int| batches[i]@)
}

/// The in-memory buffer of a table.
#[derive(Debug)]
pub struct MutableBuffer {
    batch_size: usize,
    batches: Vec<Batch>,
}

impl View for MutableBuffer {
    type V = Seq<BatchView>;

    closed spec fn view(&self) -> Seq<BatchView> {
        batches_view(self.batches@)
    }
}

impl MutableBuffer {
    /// The number of rows at which a batch is sealed.
    pub closed spec fn batch_size(&self) -> nat {
        self.batch_size as nat
    }

    /// An empty buffer whose batches are sealed at `batch_size` rows.
    pub fn new(batch_size: usize) -> (buffer: Self)
        ensures
            buffer@ == Seq::<BatchView>::empty(),
            buffer.batch_size() == batch_size,
    {
        let buffer = MutableBuffer { batch_size, batches: Vec::new() };
        assert(buffer@ =~= Seq::<BatchView>::empty());
        buffer
    }

    /// The number of batches held.
    pub fn batch_count(&self) -> (n: usize)
        ensures
            n == self@.len(),
    {
        self.batches.len()
    }

    /// Appends a row to the open batch, starting one where there is none.
    pub fn append(&mut self, row: MoonlinkRow)
        ensures
            final(self).batch_size() == old(self).batch_size(),
            final(self)@ == appended(old(self)@, old(self).batch_size(), row@),
    {
        let n = self.batches.len();
        if n > 0 && !self.batches[n - 1].sealed {
            let open = self.batches.pop().unwrap();
            let mut rows = open.rows;
            rows.push(row);
            let sealed = rows.len() >= self.batch_size;
            assert(rows_view(rows@) =~= open@.rows.push(row@));
            self.batches.push(Batch { rows, lsn: open.lsn, sealed });
            assert(self@ =~= appended(old(self)@, old(self).batch_size(), row@));
        } else {
            let mut rows: Vec<MoonlinkRow> = Vec::new();
            rows.push(row);
            assert(rows_view(rows@) =~= seq![row@]);
            self.batches.push(Batch { rows, lsn: None, sealed: self.batch_size <= 1 });
            assert(self@ =~= appended(old(self)@, old(self).batch_size(), row@));
        }
    }

    /// Seals every batch and makes those not yet committed eligible for
    /// flushing under `lsn`. Nothing is written.
    pub fn commit(&mut self, lsn: u64)
        ensures
            final(self).batch_size() == old(self).batch_size(),
            final(self)@ == committed(old(self)@, lsn),
    {
        let mut done: Vec<Batch> = Vec::new();
        let mut rest: Vec<Batch> = Vec::new();
        std::mem::swap(&mut self.batches, &mut rest);
        let ghost before = batches_view(rest@);
        let n = rest.len();
        let mut i: usize = 0;
        let mut rest = reversed(rest);
        while i < n
            invariant
                i <= n,
                n == before.len(),
                rest.len() == n - i,
                done.len() == i,
                forall|k: int| 0 <= k < n - i ==> (#[trigger] rest@[k])@ == before[n - 1 - k],
                forall|k: int| 0 <= k < i ==> (#[trigger] done@[k])@ == commit_batch(before[k], lsn),
            decreases n - i,
        {
            let batch = rest.pop().unwrap();
            let at = match batch.lsn {
                Some(at) => Some(at),
                None => Some(lsn),
            };
            done.push(Batch { rows: batch.rows, lsn: at, sealed: true });
            i += 1;
        }
        self.batches = done;
        assert(self@ =~= committed(old(self)@, lsn));
    }

    /// Takes out the leading batches that were committed at or below `lsn`
    /// and returns them as data files, one for each batch, in batch order. A
    /// batch that was flushed is gone, so a second flush returns nothing for it.
    pub fn flush(&mut self, lsn: u64) -> (files: Vec<DataFile>)
        ensures
            final(self).batch_size() == old(self).batch_size(),
            files_view(files@) == files_of(old(self)@.take(flush_count(old(self)@, lsn) as int)),
            final(self)@ == old(self)@.skip(flush_count(old(self)@, lsn) as int),
    {
        let ghost before = self@;
        let mut n: usize = 0;
        assert(before.skip(0) =~= before);
        while n < self.batches.len() && is_eligible(&self.batches[n], lsn)
            invariant
                self@ == before,
                n <= self.batches.len(),
                flush_count(before, lsn) == n + flush_count(before.skip(n as int), lsn),
            decreases self.batches.len() - n,
        {
            assert(before.skip(n as int).drop_first() =~= before.skip(n + 1));
            n += 1;
        }
        assert(flush_count(before, lsn) == n) by {
            if n < before.len() {
                assert(before.skip(n as int).first() == before[n as int]);
            }
        }
        let mut taken = self.batches.split_off(n);
        std::mem::swap(&mut self.batches, &mut taken);
        assert(self@ =~= before.skip(n as int));
        let mut taken = reversed(taken);
        proof {
            lemma_flush_count(before, lsn);
        }
        let mut files: Vec<DataFile> = Vec::new();
        let mut i: usize = 0;
        while i < n
            invariant
                i <= n,
                n <= before.len(),
                taken.len() == n - i,
                files.len() == i,
                forall|k: int| 0 <= k < n ==> eligible(#[trigger] before[k], lsn),
                forall|k: int| 0 <= k < n - i ==> (#[trigger] taken@[k])@ == before[n - 1 - k],
                forall|k: int| 0 <= k < i ==> (#[trigger] files@[k])@ == file_of(before[k]),
            decreases n - i,
        {
            let batch = taken.pop().unwrap();
            let at = match batch.lsn {
                Some(at) => at,
                None => lsn,
            };
            files.push(DataFile { rows: batch.rows, lsn: at });
            i += 1;
        }
        assert(files_view(files@) =~= files_of(before.take(n as int)));
        files
    }

    /// Applies one log record: appends an appended row, commits at a commit
    /// marker, and does nothing for a delete.
    pub fn apply(&mut self, record: WalRecord)
        ensures
            final(self).batch_size() == old(self).batch_size(),
            final(self)@ == applied(old(self)@, old(self).batch_size(), record@),
    {
        match record {
            WalRecord::Append(row) => self.append(row),
            WalRecord::Commit(lsn) => self.commit(lsn),
            WalRecord::Delete(_) => {},
        }
    }

    /// The buffer that holds what the records of a log left in it.
    pub fn replay(batch_size: usize, records: Vec<WalRecord>) -> (buffer: Self)
        ensures
            buffer.batch_size() == batch_size,
            buffer@ == replayed(batch_size as nat, records_view(records@)),
    {
        let mut buffer = MutableBuffer::new(batch_size);
        let ghost all = records_view(records@);
        let mut rest = records;
        let n = rest.len();
        let mut rest = reversed(rest);
        let mut i: usize = 0;
        assert(all.take(0) =~= Seq::<RecordView>::empty());
        while i < n
            invariant
                i <= n,
                n == all.len(),
                rest.len() == n - i,
                buffer.batch_size() == batch_size,
                forall|k: int| 0 <= k < n - i ==> (#[trigger] rest@[k])@ == all[n - 1 - k],
                buffer@ == replayed(batch_size as nat, all.take(i as int)),
            decreases n - i,
        {
            let record = rest.pop().unwrap();
            assert(all.take(i + 1).drop_last() =~= all.take(i as int));
            buffer.apply(record);
            i += 1;
        }
        assert(all.take(n as int) =~= all);
        buffer
    }
}

/// The items in the opposite order.
pub(crate) fn reversed<T>(items: Vec<T>) -> (out: Vec<T>)
    ensures
        out@.len() == items@.len(),
        forall|k: int| 0 <= k < out@.len() ==> out@[k] == items@[items@.len() - 1 - k],
{
    let ghost all = items@;
    let mut rest = items;
    let mut out: Vec<T> = Vec::new();
    while rest.len() > 0
        invariant
            rest@ == all.take(rest@.len() as int),
            rest@.len() <= all.len(),
            out@.len() == all.len() - rest@.len(),
            forall|k: int| 0 <= k < out@.len() ==> out@[k] == all[all.len() - 1 - k],
        decreases rest.len(),
    {
        let item = rest.pop().unwrap();
        out.push(item);
        assert(rest@ =~= all.take(rest@.len() as int));
    }
    out
}

fn is_eligible(batch: &Batch, lsn: u64) -> (b: bool)
    ensures
        b == eligible(batch@, lsn),
{
    match batch.lsn {
        Some(at) => at <= lsn,
        None => false,
    }
}

} // verus!
