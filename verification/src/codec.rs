//! The bytes of log records.
//!
//! A record is written as a frame:
//!
//! ```text
//! payload length (u32, LE) | payload | Adler-32 of the payload (u32, LE)
//! ```
//!
//! The payload starts with the record's kind: `0` for an appended row (then
//! the number of values and the values), `1` for a position delete (file
//! number, row number), `2` for a commit marker (the LSN). A value starts with
//! its tag: `0` null, `1` 32-bit integer, `2` 64-bit integer, `3` boolean,
//! `4` byte array (then its length). Integers are little-endian, signed ones in
//! two's complement.

use crate::checksum::{adler32, checksum};
use crate::position::PositionDelete;
use crate::row::{MoonlinkRow, RowValue, Value};
use vstd::bytes::*;
use vstd::prelude::*;
use vstd::slice::{slice_subrange, slice_to_vec};

verus! {

/// One record of the log.
#[derive(Debug)]
pub enum WalRecord {
    /// A row was appended.
    Append(MoonlinkRow),
    /// A row of a data file was deleted.
    Delete(PositionDelete),
    /// Everything before this marker is committed under the LSN.
    Commit(u64),
}

/// The mathematical form of a [`WalRecord`].
pub enum RecordView {
    Append(Seq<Value>),
    Delete(PositionDelete),
    Commit(u64),
}

impl View for WalRecord {
    type V = RecordView;

    open spec fn view(&self) -> RecordView {
        match *self {
            WalRecord::Append(row) => RecordView::Append(row@),
            WalRecord::Delete(position) => RecordView::Delete(position),
            WalRecord::Commit(lsn) => RecordView::Commit(lsn),
        }
    }
}

impl Clone for WalRecord {
    fn clone(&self) -> (out: Self)
        ensures
            out@ == self@,
    {
        match self {
            WalRecord::Append(row) => WalRecord::Append(row.clone()),
            WalRecord::Delete(position) => WalRecord::Delete(*position),
            WalRecord::Commit(lsn) => WalRecord::Commit(*lsn),
        }
    }
}

/// The records that a vector of records stands for.
pub open spec fn records_view(records: Seq<WalRecord>) -> Seq<RecordView> {
    Seq::new(records.len(), |i: int| records[i]@)
}

/// A 32-bit integer as the unsigned number with the same bits.
pub open spec fn unsigned32(v: i32) -> u32 {
    if v >= 0 {
        v as u32
    } else {
        (v + 0x1_0000_0000) as u32
    }
}

/// The 32-bit integer with the bits of an unsigned number.
pub open spec fn signed32(u: u32) -> i32 {
    if u < 0x8000_0000 {
        u as i32
    } else {
        (u - 0x1_0000_0000) as i32
    }
}

/// A 64-bit integer as the unsigned number with the same bits.
pub open spec fn unsigned64(v: i64) -> u64 {
    if v >= 0 {
        v as u64
    } else {
        (v + 0x1_0000_0000_0000_0000) as u64
    }
}

/// The 64-bit integer with the bits of an unsigned number.
pub open spec fn signed64(u: u64) -> i64 {
    if u < 0x8000_0000_0000_0000 {
        u as i64
    } else {
        (u - 0x1_0000_0000_0000_0000) as i64
    }
}

/// The bytes of one value.
pub open spec fn encode_value(v: Value) -> Seq<u8> {
    match v {
        Value::Null => seq![0u8],
        Value::Int32(x) => seq![1u8] + spec_u32_to_le_bytes(unsigned32(x)),
        Value::Int64(x) => seq![2u8] + spec_u64_to_le_bytes(unsigned64(x)),
        Value::Bool(b) => seq![
            3u8,
            if b {
                1u8
            } else {
                0u8
            },
        ],
        Value::ByteArray(bytes) => seq![4u8] + spec_u32_to_le_bytes(bytes.len() as u32) + bytes,
    }
}

/// The bytes of the values of a row, one after the other.
pub open spec fn encode_values(values: Seq<Value>) -> Seq<u8>
    decreases values.len(),
{
    if values.len() == 0 {
        Seq::<u8>::empty()
    } else {
        encode_values(values.drop_last()) + encode_value(values.last())
    }
}

/// The payload of a record.
pub open spec fn encode_payload(record: RecordView) -> Seq<u8> {
    match record {
        RecordView::Append(row) => seq![0u8] + spec_u32_to_le_bytes(row.len() as u32)
            + encode_values(row),
        RecordView::Delete(position) => seq![1u8] + spec_u32_to_le_bytes(
            position.data_file_number,
        ) + spec_u32_to_le_bytes(position.data_file_row_number),
        RecordView::Commit(lsn) => seq![2u8] + spec_u64_to_le_bytes(lsn),
    }
}

/// Whether the lengths inside a row can be written: every byte array is at
/// most `u32::MAX` bytes long.
pub open spec fn values_fit(values: Seq<Value>) -> bool {
    forall|i: int|
        0 <= i < values.len() ==> ((#[trigger] values[i]) matches Value::ByteArray(bytes)
            ==> bytes.len() <= u32::MAX)
}

/// Whether a record can be written as a frame: the lengths inside it and the
/// length of its payload fit in 32 bits.
pub open spec fn encodable(record: RecordView) -> bool {
    &&& record matches RecordView::Append(row) ==> row.len() <= u32::MAX && values_fit(row)
    &&& encode_payload(record).len() <= u32::MAX
}

/// The frame of a record: the length of its payload, the payload, and the
/// payload's checksum.
pub open spec fn encode_frame(record: RecordView) -> Seq<u8> {
    spec_u32_to_le_bytes(encode_payload(record).len() as u32) + encode_payload(record)
        + spec_u32_to_le_bytes(adler32(encode_payload(record)))
}

/// The bytes of a log: the frames of its records, one after the other.
pub open spec fn encode_log(records: Seq<RecordView>) -> Seq<u8>
    decreases records.len(),
{
    if records.len() == 0 {
        Seq::<u8>::empty()
    } else {
        encode_log(records.drop_last()) + encode_frame(records.last())
    }
}

/// The bytes of two logs, one after the other, are the bytes of the log that
/// holds the records of both.
pub proof fn lemma_encode_log_concat(a: Seq<RecordView>, b: Seq<RecordView>)
    ensures
        encode_log(a + b) == encode_log(a) + encode_log(b),
    decreases b.len(),
{
    if b.len() == 0 {
        assert(a + b =~= a);
        assert(encode_log(a) + encode_log(b) =~= encode_log(a));
    } else {
        lemma_encode_log_concat(a, b.drop_last());
        assert((a + b).drop_last() =~= a + b.drop_last());
        assert((a + b).last() == b.last());
        assert(encode_log(a + b) =~= encode_log(a) + encode_log(b));
    }
}

fn write_i32(out: &mut Vec<u8>, v: i32)
    ensures
        final(out)@ == old(out)@ + spec_u32_to_le_bytes(unsigned32(v)),
{
    let bits: u32 = if v >= 0 {
        v as u32
    } else {
        (v as i64 + 0x1_0000_0000) as u32
    };
    let mut bytes = u32_to_le_bytes(bits);
    out.append(&mut bytes);
}

fn write_i64(out: &mut Vec<u8>, v: i64)
    ensures
        final(out)@ == old(out)@ + spec_u64_to_le_bytes(unsigned64(v)),
{
    let bits: u64 = if v >= 0 {
        v as u64
    } else {
        (v as i128 + 0x1_0000_0000_0000_0000) as u64
    };
    let mut bytes = u64_to_le_bytes(bits);
    out.append(&mut bytes);
}

fn write_u32(out: &mut Vec<u8>, v: u32)
    ensures
        final(out)@ == old(out)@ + spec_u32_to_le_bytes(v),
{
    let mut bytes = u32_to_le_bytes(v);
    out.append(&mut bytes);
}

fn write_u64(out: &mut Vec<u8>, v: u64)
    ensures
        final(out)@ == old(out)@ + spec_u64_to_le_bytes(v),
{
    let mut bytes = u64_to_le_bytes(v);
    out.append(&mut bytes);
}

/// Appends the bytes of one value. Returns `false`, with `out` unchanged, for
/// a byte array longer than can be written.
fn write_value(out: &mut Vec<u8>, value: &RowValue) -> (ok: bool)
    ensures
        ok == !(value@ matches Value::ByteArray(bytes) && bytes.len() > u32::MAX),
        ok ==> final(out)@ == old(out)@ + encode_value(value@),
        !ok ==> final(out)@ == old(out)@,
{
    match value {
        RowValue::Null => {
            out.push(0u8);
            assert(out@ =~= old(out)@ + encode_value(value@));
        },
        RowValue::Int32(v) => {
            out.push(1u8);
            write_i32(out, *v);
            assert(out@ =~= old(out)@ + encode_value(value@));
        },
        RowValue::Int64(v) => {
            out.push(2u8);
            write_i64(out, *v);
            assert(out@ =~= old(out)@ + encode_value(value@));
        },
        RowValue::Bool(b) => {
            out.push(3u8);
            out.push(
                if *b {
                    1u8
                } else {
                    0u8
                },
            );
            assert(out@ =~= old(out)@ + encode_value(value@));
        },
        RowValue::ByteArray(bytes) => {
            if bytes.len() > u32::MAX as usize {
                return false;
            }
            out.push(4u8);
            write_u32(out, bytes.len() as u32);
            let mut i: usize = 0;
            let ghost head = out@;
            while i < bytes.len()
                invariant
                    i <= bytes.len(),
                    out@ == head + bytes@.take(i as int),
                decreases bytes.len() - i,
            {
                out.push(bytes[i]);
                assert(out@ =~= head + bytes@.take(i + 1));
                i += 1;
            }
            assert(bytes@.take(i as int) =~= bytes@);
            assert(out@ =~= old(out)@ + encode_value(value@));
        },
    }
    true
}

/// The payload of a record, or `None` where a length inside it cannot be
/// written.
fn record_payload(record: &WalRecord) -> (payload: Option<Vec<u8>>)
    ensures
        payload.is_some() == (record@ matches RecordView::Append(row) ==> row.len() <= u32::MAX
            && values_fit(row)),
        payload matches Some(bytes) ==> bytes@ == encode_payload(record@),
{
    let mut out: Vec<u8> = Vec::new();
    match record {
        WalRecord::Append(row) => {
            if row.values.len() > u32::MAX as usize {
                return None;
            }
            out.push(0u8);
            write_u32(&mut out, row.values.len() as u32);
            let ghost head = out@;
            let mut i: usize = 0;
            while i < row.values.len()
                invariant
                    i <= row.values.len(),
                    record@ == RecordView::Append(row@),
                    out@ == head + encode_values(row@.take(i as int)),
                    values_fit(row@.take(i as int)),
                decreases row.values.len() - i,
            {
                let ok = write_value(&mut out, &row.values[i]);
                if !ok {
                    assert(!values_fit(row@)) by {
                        assert(row@[i as int] == row.values@[i as int]@);
                    }
                    return None;
                }
                proof {
                    assert(row@.take(i + 1).drop_last() =~= row@.take(i as int));
                    assert(row@.take(i + 1).last() == row.values@[i as int]@);
                    assert(out@ =~= head + encode_values(row@.take(i + 1)));
                    assert forall|k: int| 0 <= k < i + 1 implies ((#[trigger] row@.take(
                        i + 1,
                    )[k]) matches Value::ByteArray(bytes) ==> bytes.len() <= u32::MAX) by {
                        if k < i {
                            assert(row@.take(i as int)[k] == row@.take(i + 1)[k]);
                        }
                    }
                }
                i += 1;
            }
            assert(row@.take(i as int) =~= row@);
            assert(out@ =~= encode_payload(record@));
        },
        WalRecord::Delete(position) => {
            out.push(1u8);
            write_u32(&mut out, position.data_file_number);
            write_u32(&mut out, position.data_file_row_number);
            assert(out@ =~= encode_payload(record@));
        },
        WalRecord::Commit(lsn) => {
            out.push(2u8);
            write_u64(&mut out, *lsn);
            assert(out@ =~= encode_payload(record@));
        },
    }
    Some(out)
}

/// The frame of a record, or `None` where the record cannot be written.
pub fn record_frame(record: &WalRecord) -> (frame: Option<Vec<u8>>)
    ensures
        frame.is_some() == encodable(record@),
        frame matches Some(bytes) ==> bytes@ == encode_frame(record@),
{
    match record_payload(record) {
        None => None,
        Some(payload) => {
            if payload.len() > u32::MAX as usize {
                return None;
            }
            let mut frame: Vec<u8> = Vec::new();
            write_u32(&mut frame, payload.len() as u32);
            let sum = checksum(payload.as_slice());
            let mut body = payload;
            frame.append(&mut body);
            write_u32(&mut frame, sum);
            assert(frame@ =~= encode_frame(record@));
            Some(frame)
        },
    }
}

/// Why the bytes of a log cannot be read.
#[derive(Clone, Copy, Debug, PartialEq, Eq, Structural)]
pub enum DecodeError {
    /// A whole frame whose checksum is not that of its payload.
    ChecksumMismatch,
    /// A whole frame whose payload is not that of a record.
    BadPayload,
}

/// The value that the bytes start with, and the number of bytes it takes;
/// `None` where the bytes start with no value.
pub open spec fn parse_value(bytes: Seq<u8>) -> Option<(Value, int)> {
    if bytes.len() == 0 {
        None
    } else if bytes[0] == 0 {
        Some((Value::Null, 1))
    } else if bytes[0] == 1 {
        if bytes.len() < 5 {
            None
        } else {
            Some((Value::Int32(signed32(spec_u32_from_le_bytes(bytes.subrange(1, 5)))), 5))
        }
    } else if bytes[0] == 2 {
        if bytes.len() < 9 {
            None
        } else {
            Some((Value::Int64(signed64(spec_u64_from_le_bytes(bytes.subrange(1, 9)))), 9))
        }
    } else if bytes[0] == 3 {
        if bytes.len() < 2 || bytes[1] > 1 {
            None
        } else {
            Some((Value::Bool(bytes[1] == 1), 2))
        }
    } else if bytes[0] == 4 {
        if bytes.len() < 5 || bytes.len() < 5 + spec_u32_from_le_bytes(bytes.subrange(1, 5)) {
            None
        } else {
            let n = spec_u32_from_le_bytes(bytes.subrange(1, 5));
            Some((Value::ByteArray(bytes.subrange(5, 5 + n)), 5 + n))
        }
    } else {
        None
    }
}

/// What is read when `prefix` was read in `used` bytes and `rest` is read
/// behind it.
pub open spec fn extend(prefix: Seq<Value>, used: int, rest: Option<(Seq<Value>, int)>) -> Option<
    (Seq<Value>, int),
> {
    match rest {
        None => None,
        Some(more) => Some((prefix + more.0, used + more.1)),
    }
}

/// The `count` values that the bytes start with, and the number of bytes they
/// take; `None` where the bytes do not start with that many values.
pub open spec fn parse_values(bytes: Seq<u8>, count: nat) -> Option<(Seq<Value>, int)>
    decreases count,
{
    if count == 0 {
        Some((Seq::<Value>::empty(), 0))
    } else {
        match parse_value(bytes) {
            None => None,
            Some(first) => extend(
                seq![first.0],
                first.1,
                parse_values(bytes.skip(first.1), (count - 1) as nat),
            ),
        }
    }
}

/// The record that a payload spells; `None` where it spells none.
pub open spec fn parse_payload(bytes: Seq<u8>) -> Option<RecordView> {
    if bytes.len() == 0 {
        None
    } else if bytes[0] == 0 {
        if bytes.len() < 5 {
            None
        } else {
            match parse_values(
                bytes.skip(5),
                spec_u32_from_le_bytes(bytes.subrange(1, 5)) as nat,
            ) {
                Some(read) => if read.1 == bytes.len() - 5 {
                    Some(RecordView::Append(read.0))
                } else {
                    None
                },
                None => None,
            }
        }
    } else if bytes[0] == 1 {
        if bytes.len() != 9 {
            None
        } else {
            Some(
                RecordView::Delete(
                    PositionDelete {
                        data_file_number: spec_u32_from_le_bytes(bytes.subrange(1, 5)),
                        data_file_row_number: spec_u32_from_le_bytes(bytes.subrange(5, 9)),
                    },
                ),
            )
        }
    } else if bytes[0] == 2 {
        if bytes.len() != 9 {
            None
        } else {
            Some(RecordView::Commit(spec_u64_from_le_bytes(bytes.subrange(1, 9))))
        }
    } else {
        None
    }
}

/// What is read when `first` was read and `rest` is read behind it.
pub open spec fn prepend(first: RecordView, rest: Result<Seq<RecordView>, DecodeError>) -> Result<
    Seq<RecordView>,
    DecodeError,
> {
    match rest {
        Err(fault) => Err(fault),
        Ok(more) => Ok(seq![first] + more),
    }
}

/// The records that the bytes of a log spell. Bytes at the end that are the
/// beginning of a frame but not a whole frame are left out: they are what a
/// write that did not finish leaves behind. A whole frame with a wrong
/// checksum or with a payload that spells no record is a fault.
pub open spec fn parse_log(bytes: Seq<u8>) -> Result<Seq<RecordView>, DecodeError>
    decreases bytes.len(),
{
    if bytes.len() < 4 {
        Ok(Seq::<RecordView>::empty())
    } else {
        let n = spec_u32_from_le_bytes(bytes.subrange(0, 4)) as int;
        if bytes.len() < 8 + n {
            Ok(Seq::<RecordView>::empty())
        } else if spec_u32_from_le_bytes(bytes.subrange(4 + n, 8 + n)) != adler32(
            bytes.subrange(4, 4 + n),
        ) {
            Err(DecodeError::ChecksumMismatch)
        } else {
            match parse_payload(bytes.subrange(4, 4 + n)) {
                None => Err(DecodeError::BadPayload),
                Some(record) => prepend(record, parse_log(bytes.skip(8 + n))),
            }
        }
    }
}

/// A value is read back from its bytes, whatever follows them.
pub proof fn lemma_parse_value(v: Value, rest: Seq<u8>)
    requires
        v matches Value::ByteArray(bytes) ==> bytes.len() <= u32::MAX,
    ensures
        parse_value(encode_value(v) + rest) == Some((v, encode_value(v).len() as int)),
{
    lemma_auto_spec_u32_to_from_le_bytes();
    lemma_auto_spec_u64_to_from_le_bytes();
    let all = encode_value(v) + rest;
    match v {
        Value::Null => {},
        Value::Int32(x) => {
            assert(all.subrange(1, 5) =~= spec_u32_to_le_bytes(unsigned32(x)));
        },
        Value::Int64(x) => {
            assert(all.subrange(1, 9) =~= spec_u64_to_le_bytes(unsigned64(x)));
        },
        Value::Bool(b) => {},
        Value::ByteArray(bytes) => {
            assert(all.subrange(1, 5) =~= spec_u32_to_le_bytes(bytes.len() as u32));
            assert(all.subrange(5, 5 + bytes.len() as int) =~= bytes);
        },
    }
}

/// The bytes of values start with the bytes of the first.
pub proof fn lemma_encode_values_front(values: Seq<Value>)
    requires
        values.len() > 0,
    ensures
        encode_values(values) == encode_value(values.first()) + encode_values(
            values.drop_first(),
        ),
    decreases values.len(),
{
    if values.len() == 1 {
        assert(values.drop_last() =~= Seq::<Value>::empty());
        assert(values.drop_first() =~= Seq::<Value>::empty());
        assert(encode_values(values) =~= encode_value(values.first()) + encode_values(
            values.drop_first(),
        ));
    } else {
        let init = values.drop_last();
        lemma_encode_values_front(init);
        assert(init.first() == values.first());
        assert(init.drop_first() =~= values.drop_first().drop_last());
        assert(values.drop_first().last() == values.last());
        assert(encode_values(values) =~= encode_value(values.first()) + encode_values(
            values.drop_first(),
        ));
    }
}

/// Values are read back from their bytes, whatever follows them.
pub proof fn lemma_parse_values(values: Seq<Value>, rest: Seq<u8>)
    requires
        values_fit(values),
    ensures
        parse_values(encode_values(values) + rest, values.len()) == Some(
            (values, encode_values(values).len() as int),
        ),
    decreases values.len(),
{
    if values.len() == 0 {
    } else {
        let first = values.first();
        let others = values.drop_first();
        lemma_encode_values_front(values);
        let all = encode_values(values) + rest;
        assert(all =~= encode_value(first) + (encode_values(others) + rest));
        assert(values[0] == first);
        lemma_parse_value(first, encode_values(others) + rest);
        assert(all.skip(encode_value(first).len() as int) =~= encode_values(others) + rest);
        assert forall|i: int| 0 <= i < others.len() implies ((
        #[trigger] others[i]) matches Value::ByteArray(bytes) ==> bytes.len() <= u32::MAX) by {
            assert(others[i] == values[i + 1]);
        }
        lemma_parse_values(others, rest);
        assert(seq![first] + others =~= values);
    }
}

/// A record that can be written is read back from its payload.
pub proof fn lemma_parse_payload(record: RecordView)
    requires
        encodable(record),
    ensures
        parse_payload(encode_payload(record)) == Some(record),
{
    lemma_auto_spec_u32_to_from_le_bytes();
    lemma_auto_spec_u64_to_from_le_bytes();
    let bytes = encode_payload(record);
    match record {
        RecordView::Append(row) => {
            assert(bytes.subrange(1, 5) =~= spec_u32_to_le_bytes(row.len() as u32));
            assert(bytes.skip(5) =~= encode_values(row) + Seq::<u8>::empty());
            lemma_parse_values(row, Seq::<u8>::empty());
        },
        RecordView::Delete(position) => {
            assert(bytes.subrange(1, 5) =~= spec_u32_to_le_bytes(position.data_file_number));
            assert(bytes.subrange(5, 9) =~= spec_u32_to_le_bytes(position.data_file_row_number));
        },
        RecordView::Commit(lsn) => {
            assert(bytes.subrange(1, 9) =~= spec_u64_to_le_bytes(lsn));
        },
    }
}

/// A frame is read back, and behind it what follows it.
pub proof fn lemma_parse_frame(record: RecordView, rest: Seq<u8>)
    requires
        encodable(record),
    ensures
        parse_log(encode_frame(record) + rest) == prepend(record, parse_log(rest)),
{
    lemma_auto_spec_u32_to_from_le_bytes();
    let payload = encode_payload(record);
    let n = payload.len() as int;
    let all = encode_frame(record) + rest;
    assert(all.subrange(0, 4) =~= spec_u32_to_le_bytes(n as u32));
    assert(all.subrange(4, 4 + n) =~= payload);
    assert(all.subrange(4 + n, 8 + n) =~= spec_u32_to_le_bytes(adler32(payload)));
    assert(all.skip(8 + n) =~= rest);
    lemma_parse_payload(record);
}

/// The bytes of a log start with the frame of its first record.
pub proof fn lemma_encode_log_front(records: Seq<RecordView>)
    requires
        records.len() > 0,
    ensures
        encode_log(records) == encode_frame(records.first()) + encode_log(records.drop_first()),
{
    let one = seq![records.first()];
    assert(one + records.drop_first() =~= records);
    lemma_encode_log_concat(one, records.drop_first());
    assert(one.drop_last() =~= Seq::<RecordView>::empty());
    assert(encode_log(one.drop_last()) =~= Seq::<u8>::empty());
    assert(one.last() == records.first());
    assert(encode_log(one) =~= encode_frame(records.first()));
}

/// The beginning of a frame, short of the whole frame, reads as nothing.
pub proof fn lemma_parse_torn(record: RecordView, k: int)
    requires
        encodable(record),
        0 <= k < encode_frame(record).len(),
    ensures
        parse_log(encode_frame(record).take(k)) == Ok::<Seq<RecordView>, DecodeError>(
            Seq::<RecordView>::empty(),
        ),
{
    lemma_auto_spec_u32_to_from_le_bytes();
    let torn = encode_frame(record).take(k);
    if k >= 4 {
        assert(torn.subrange(0, 4) =~= spec_u32_to_le_bytes(encode_payload(record).len() as u32));
    }
}

/// Reading the bytes of a log gives back its records; and so it does where
/// the bytes are followed by the beginning of one more frame that was not
/// written to its end.
pub proof fn lemma_log_round_trip(records: Seq<RecordView>, torn: RecordView, k: int)
    requires
        forall|i: int| 0 <= i < records.len() ==> encodable(#[trigger] records[i]),
        encodable(torn),
        0 <= k < encode_frame(torn).len(),
    ensures
        parse_log(encode_log(records)) == Ok::<Seq<RecordView>, DecodeError>(records),
        parse_log(encode_log(records) + encode_frame(torn).take(k)) == Ok::<
            Seq<RecordView>,
            DecodeError,
        >(records),
    decreases records.len(),
{
    let tail = encode_frame(torn).take(k);
    if records.len() == 0 {
        lemma_parse_torn(torn, k);
        assert(records =~= Seq::<RecordView>::empty());
        assert(encode_log(records) =~= Seq::<u8>::empty());
        assert(encode_log(records) + tail =~= tail);
    } else {
        let first = records.first();
        let others = records.drop_first();
        assert(encodable(records[0]));
        assert forall|i: int| 0 <= i < others.len() implies encodable(#[trigger] others[i]) by {
            assert(others[i] == records[i + 1]);
        }
        lemma_encode_log_front(records);
        lemma_log_round_trip(others, torn, k);
        lemma_parse_frame(first, encode_log(others));
        lemma_parse_frame(first, encode_log(others) + tail);
        assert(encode_log(records) + tail =~= encode_frame(first) + (encode_log(others) + tail));
        assert(seq![first] + others =~= records);
    }
}

fn read_u32(bytes: &[u8], at: usize) -> (v: u32)
    requires
        at + 4 <= bytes.len(),
    ensures
        v == spec_u32_from_le_bytes(bytes@.subrange(at as int, at + 4)),
{
    u32_from_le_bytes(slice_subrange(bytes, at, at + 4))
}

fn read_u64(bytes: &[u8], at: usize) -> (v: u64)
    requires
        at + 8 <= bytes.len(),
    ensures
        v == spec_u64_from_le_bytes(bytes@.subrange(at as int, at + 8)),
{
    u64_from_le_bytes(slice_subrange(bytes, at, at + 8))
}

fn to_signed32(u: u32) -> (v: i32)
    ensures
        v == signed32(u),
{
    if u < 0x8000_0000 {
        u as i32
    } else {
        (u as i64 - 0x1_0000_0000) as i32
    }
}

fn to_signed64(u: u64) -> (v: i64)
    ensures
        v == signed64(u),
{
    if u < 0x8000_0000_0000_0000 {
        u as i64
    } else {
        (u as i128 - 0x1_0000_0000_0000_0000) as i64
    }
}

/// Reads the value that starts at `at`, and says where the next one starts.
fn read_value(bytes: &[u8], at: usize) -> (out: Option<(RowValue, usize)>)
    requires
        at <= bytes.len(),
    ensures
        match out {
            Some(read) => parse_value(bytes@.skip(at as int)) == Some((read.0@, read.1 - at))
                && at < read.1 <= bytes.len(),
            None => parse_value(bytes@.skip(at as int)).is_none(),
        },
{
    let ghost rest = bytes@.skip(at as int);
    let left = bytes.len() - at;
    if left == 0 {
        return None;
    }
    let tag = bytes[at];
    assert(rest[0] == tag);
    if tag == 0 {
        Some((RowValue::Null, at + 1))
    } else if tag == 1 {
        if left < 5 {
            return None;
        }
        assert(rest.subrange(1, 5) =~= bytes@.subrange(at + 1, at + 5));
        Some((RowValue::Int32(to_signed32(read_u32(bytes, at + 1))), at + 5))
    } else if tag == 2 {
        if left < 9 {
            return None;
        }
        assert(rest.subrange(1, 9) =~= bytes@.subrange(at + 1, at + 9));
        Some((RowValue::Int64(to_signed64(read_u64(bytes, at + 1))), at + 9))
    } else if tag == 3 {
        if left < 2 {
            return None;
        }
        assert(rest[1] == bytes@[at + 1]);
        if bytes[at + 1] > 1 {
            return None;
        }
        Some((RowValue::Bool(bytes[at + 1] == 1), at + 2))
    } else if tag == 4 {
        if left < 5 {
            return None;
        }
        assert(rest.subrange(1, 5) =~= bytes@.subrange(at + 1, at + 5));
        let n = read_u32(bytes, at + 1) as usize;
        if left - 5 < n {
            return None;
        }
        let held = slice_to_vec(slice_subrange(bytes, at + 5, at + 5 + n));
        assert(rest.subrange(5, 5 + n) =~= bytes@.subrange(at + 5, at + 5 + n));
        Some((RowValue::ByteArray(held), at + 5 + n))
    } else {
        None
    }
}

/// Reads `count` values from `at` on, and says where they end.
fn read_values(bytes: &[u8], at: usize, count: u32) -> (out: Option<(Vec<RowValue>, usize)>)
    requires
        at <= bytes.len(),
    ensures
        match out {
            Some(read) => parse_values(bytes@.skip(at as int), count as nat) == Some(
                (crate::row::values_view(read.0@), read.1 - at),
            ) && at <= read.1 <= bytes.len(),
            None => parse_values(bytes@.skip(at as int), count as nat).is_none(),
        },
{
    let ghost base = bytes@.skip(at as int);
    let mut values: Vec<RowValue> = Vec::new();
    let mut cursor: usize = at;
    let mut i: u32 = 0;
    assert(base.skip(0) =~= base);
    assert(crate::row::values_view(values@) =~= Seq::<Value>::empty());
    assert(parse_values(base, count as nat) == extend(
        Seq::<Value>::empty(),
        0,
        parse_values(base, count as nat),
    )) by {
        let rest = parse_values(base, count as nat);
        if rest is Some {
            assert(Seq::<Value>::empty() + rest.unwrap().0 =~= rest.unwrap().0);
        }
    }
    while i < count
        invariant
            i <= count,
            at <= cursor <= bytes.len(),
            base == bytes@.skip(at as int),
            parse_values(base, count as nat) == extend(
                crate::row::values_view(values@),
                cursor - at,
                parse_values(base.skip(cursor - at), (count - i) as nat),
            ),
        decreases count - i,
    {
        let ghost here = base.skip(cursor - at);
        assert(here =~= bytes@.skip(cursor as int));
        let ghost done = crate::row::values_view(values@);
        match read_value(bytes, cursor) {
            None => {
                return None;
            },
            Some(read) => {
                let (value, next) = read;
                proof {
                    let used = next - cursor;
                    assert(here.skip(used) =~= base.skip(next - at));
                    let rest = parse_values(base.skip(next - at), (count - i - 1) as nat);
                    if rest is Some {
                        assert((done + seq![value@]) + rest.unwrap().0 =~= done + (seq![value@]
                            + rest.unwrap().0));
                    }
                }
                values.push(value);
                assert(crate::row::values_view(values@) =~= done + seq![value@]);
                cursor = next;
            },
        }
        i += 1;
    }
    proof {
        assert(crate::row::values_view(values@) + Seq::<Value>::empty()
            =~= crate::row::values_view(values@));
    }
    Some((values, cursor))
}

/// Reads the record that a payload spells.
fn read_payload(bytes: &[u8]) -> (out: Option<WalRecord>)
    ensures
        match out {
            Some(record) => parse_payload(bytes@) == Some(record@),
            None => parse_payload(bytes@).is_none(),
        },
{
    let n = bytes.len();
    if n == 0 {
        return None;
    }
    let kind = bytes[0];
    if kind == 0 {
        if n < 5 {
            return None;
        }
        let count = read_u32(bytes, 1);
        match read_values(bytes, 5, count) {
            None => None,
            Some(read) => {
                let (values, end) = read;
                if end != n {
                    return None;
                }
                Some(WalRecord::Append(MoonlinkRow::new(values)))
            },
        }
    } else if kind == 1 {
        if n != 9 {
            return None;
        }
        Some(
            WalRecord::Delete(
                PositionDelete {
                    data_file_number: read_u32(bytes, 1),
                    data_file_row_number: read_u32(bytes, 5),
                },
            ),
        )
    } else if kind == 2 {
        if n != 9 {
            return None;
        }
        Some(WalRecord::Commit(read_u64(bytes, 1)))
    } else {
        None
    }
}

/// What is read when `done` was read and `rest` is read behind it.
pub open spec fn follow(done: Seq<RecordView>, rest: Result<Seq<RecordView>, DecodeError>) -> Result<
    Seq<RecordView>,
    DecodeError,
> {
    match rest {
        Err(fault) => Err(fault),
        Ok(more) => Ok(done + more),
    }
}

/// Reads the records that the bytes of a log spell, leaving out a frame at
/// the end that was not written to its end.
pub fn decode_log(bytes: &[u8]) -> (out: Result<Vec<WalRecord>, DecodeError>)
    ensures
        match out {
            Ok(records) => parse_log(bytes@) == Ok::<Seq<RecordView>, DecodeError>(
                records_view(records@),
            ),
            Err(fault) => parse_log(bytes@) == Err::<Seq<RecordView>, DecodeError>(fault),
        },
{
    let mut records: Vec<WalRecord> = Vec::new();
    let mut cursor: usize = 0;
    let total = bytes.len();
    assert(bytes@.skip(0) =~= bytes@);
    assert(parse_log(bytes@) == follow(records_view(records@), parse_log(bytes@))) by {
        let rest = parse_log(bytes@);
        if rest is Ok {
            assert(records_view(records@) + rest->Ok_0 =~= rest->Ok_0);
        }
    }
    loop
        invariant
            cursor <= total,
            total == bytes.len(),
            parse_log(bytes@) == follow(
                records_view(records@),
                parse_log(bytes@.skip(cursor as int)),
            ),
        decreases total - cursor,
    {
        let ghost rest = bytes@.skip(cursor as int);
        let ghost done = records_view(records@);
        let left = total - cursor;
        if left < 4 {
            assert(done + Seq::<RecordView>::empty() =~= done);
            return Ok(records);
        }
        assert(rest.subrange(0, 4) =~= bytes@.subrange(cursor as int, cursor + 4));
        let n = read_u32(bytes, cursor) as usize;
        if left - 4 < 4 || left - 8 < n {
            assert(done + Seq::<RecordView>::empty() =~= done);
            return Ok(records);
        }
        let payload = slice_subrange(bytes, cursor + 4, cursor + 4 + n);
        assert(rest.subrange(4, 4 + n) =~= payload@);
        assert(rest.subrange(4 + n, 8 + n) =~= bytes@.subrange(cursor + 4 + n, cursor + 8 + n));
        let stored = read_u32(bytes, cursor + 4 + n);
        if stored != checksum(payload) {
            return Err(DecodeError::ChecksumMismatch);
        }
        match read_payload(payload) {
            None => {
                return Err(DecodeError::BadPayload);
            },
            Some(record) => {
                proof {
                    assert(rest.skip(8 + n) =~= bytes@.skip(cursor + 8 + n));
                    let after = parse_log(bytes@.skip(cursor + 8 + n));
                    if after is Ok {
                        assert((done + seq![record@]) + after->Ok_0 =~= done + (seq![record@]
                            + after->Ok_0));
                    }
                }
                records.push(record);
                assert(records_view(records@) =~= done + seq![record@]);
                cursor = cursor + 8 + n;
            },
        }
    }
}

} // verus!
