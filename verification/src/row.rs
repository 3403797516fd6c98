//! Rows, the values they hold, table schemas and identity policies.

use vstd::prelude::*;
use crate::text::{decimal_text, push_decimal};
use vstd::slice::slice_to_vec;
use vstd::string::*;
use vstd::utf8::encode_utf8;

verus! {

/// One typed value of a row.
#[derive(Debug)]
pub enum RowValue {
    Int32(i32),
    Int64(i64),
    Bool(bool),
    ByteArray(Vec<u8>),
    Null,
}

/// The mathematical value that a [`RowValue`] stands for.
pub enum Value {
    Int32(i32),
    Int64(i64),
    Bool(bool),
    ByteArray(Seq<u8>),
    Null,
}

impl View for RowValue {
    type V = Value;

    open spec fn view(&self) -> Value {
        match *self {
            RowValue::Int32(v) => Value::Int32(v),
            RowValue::Int64(v) => Value::Int64(v),
            RowValue::Bool(v) => Value::Bool(v),
            RowValue::ByteArray(bytes) => Value::ByteArray(bytes@),
            RowValue::Null => Value::Null,
        }
    }
}

impl Clone for RowValue {
    fn clone(&self) -> (out: Self)
        ensures
            out@ == self@,
    {
        match self {
            RowValue::Int32(v) => RowValue::Int32(*v),
            RowValue::Int64(v) => RowValue::Int64(*v),
            RowValue::Bool(v) => RowValue::Bool(*v),
            RowValue::ByteArray(bytes) => RowValue::ByteArray(slice_to_vec(bytes.as_slice())),
            RowValue::Null => RowValue::Null,
        }
    }
}

impl RowValue {
    /// Whether two values stand for the same mathematical value.
    pub fn same(&self, other: &RowValue) -> (b: bool)
        ensures
            b == (self@ == other@),
    {
        match (self, other) {
            (RowValue::Int32(a), RowValue::Int32(b)) => *a == *b,
            (RowValue::Int64(a), RowValue::Int64(b)) => *a == *b,
            (RowValue::Bool(a), RowValue::Bool(b)) => *a == *b,
            (RowValue::ByteArray(a), RowValue::ByteArray(b)) => same_bytes(
                a.as_slice(),
                b.as_slice(),
            ),
            (RowValue::Null, RowValue::Null) => true,
            _ => false,
        }
    }
}

/// Whether two byte strings are equal.
pub fn same_bytes(a: &[u8], b: &[u8]) -> (eq: bool)
    ensures
        eq == (a@ == b@),
{
    if a.len() != b.len() {
        return false;
    }
    let mut i: usize = 0;
    while i < a.len()
        invariant
            i <= a.len(),
            a.len() == b.len(),
            forall|k: int| 0 <= k < i ==> a@[k] == b@[k],
        decreases a.len() - i,
    {
        if a[i] != b[i] {
            return false;
        }
        i += 1;
    }
    assert(a@ =~= b@);
    true
}

/// The sequence of mathematical values that a vector of row values stands for.
pub open spec fn values_view(values: Seq<RowValue>) -> Seq<Value> {
    Seq::new(values.len(), |i: int| values[i]@)
}

/// An ordered sequence of typed values; its view is the sequence of their values.
#[derive(Debug)]
pub struct MoonlinkRow {
    pub values: Vec<RowValue>,
}

impl View for MoonlinkRow {
    type V = Seq<Value>;

    open spec fn view(&self) -> Seq<Value> {
        values_view(self.values@)
    }
}

impl Clone for MoonlinkRow {
    fn clone(&self) -> (out: Self)
        ensures
            out@ == self@,
    {
        let mut values: Vec<RowValue> = Vec::new();
        let mut i: usize = 0;
        while i < self.values.len()
            invariant
                i <= self.values.len(),
                values.len() == i,
                forall|k: int| 0 <= k < i ==> values@[k]@ == self.values@[k]@,
            decreases self.values.len() - i,
        {
            values.push(self.values[i].clone());
            i += 1;
        }
        assert(values_view(values@) =~= values_view(self.values@));
        MoonlinkRow { values }
    }
}

/// The identifier that a row of values carries: its first value, where that is a
/// 32-bit integer.
pub open spec fn row_id(row: Seq<Value>) -> Option<i32> {
    if row.len() > 0 && row[0] is Int32 {
        Some(row[0]->Int32_0)
    } else {
        None
    }
}

impl MoonlinkRow {
    /// A row of the given values, in order.
    pub fn new(values: Vec<RowValue>) -> (row: Self)
        ensures
            row.values == values,
            row@ == values_view(values@),
    {
        MoonlinkRow { values }
    }

    /// The row's identifier: its first value where that is a 32-bit integer,
    /// `None` where the row is empty or starts with anything else.
    pub fn id(&self) -> (id: Option<i32>)
        ensures
            id == row_id(self@),
    {
        if self.values.len() == 0 {
            return None;
        }
        match &self.values[0] {
            RowValue::Int32(v) => Some(*v),
            _ => None,
        }
    }

    /// Whether two rows hold the same values in the same order.
    pub fn same(&self, other: &MoonlinkRow) -> (b: bool)
        ensures
            b == (self@ == other@),
    {
        if self.values.len() != other.values.len() {
            assert(self@.len() != other@.len());
            return false;
        }
        let mut i: usize = 0;
        while i < self.values.len()
            invariant
                i <= self.values.len(),
                self.values.len() == other.values.len(),
                forall|k: int| 0 <= k < i ==> self@[k] == other@[k],
            decreases self.values.len() - i,
        {
            if !self.values[i].same(&other.values[i]) {
                assert(self@[i as int] != other@[i as int]);
                return false;
            }
            i += 1;
        }
        assert(self@ =~= other@);
        true
    }
}

/// The type of one column.
#[derive(Clone, Copy, Debug, PartialEq, Eq, Structural)]
pub enum ColumnType {
    Int32,
    Int64,
    Bool,
    ByteArray,
}

/// Whether a value may stand in a column of the given type: a null may stand
/// anywhere, any other value only in a column of its own type.
pub open spec fn value_fits(ty: ColumnType, v: Value) -> bool {
    match v {
        Value::Null => true,
        Value::Int32(_) => ty == ColumnType::Int32,
        Value::Int64(_) => ty == ColumnType::Int64,
        Value::Bool(_) => ty == ColumnType::Bool,
        Value::ByteArray(_) => ty == ColumnType::ByteArray,
    }
}

/// Whether a row has the shape of a schema: as many values as the schema has
/// columns, each fitting its column.
pub open spec fn row_fits(columns: Seq<ColumnType>, row: Seq<Value>) -> bool {
    &&& row.len() == columns.len()
    &&& forall|i: int| 0 <= i < row.len() ==> value_fits(columns[i], #[trigger] row[i])
}

/// The fixed column layout of a table.
#[derive(Clone, Debug)]
pub struct Schema {
    pub columns: Vec<ColumnType>,
}

impl View for Schema {
    type V = Seq<ColumnType>;

    open spec fn view(&self) -> Seq<ColumnType> {
        self.columns@
    }
}

impl Schema {
    /// The schema with the given columns, in order.
    pub fn new(columns: Vec<ColumnType>) -> (schema: Self)
        ensures
            schema@ == columns@,
    {
        Schema { columns }
    }

    /// A copy of this schema.
    pub fn copy(&self) -> (schema: Self)
        ensures
            schema@ == self@,
    {
        Schema { columns: slice_to_vec(self.columns.as_slice()) }
    }

    /// Whether `row` has the shape of this schema.
    pub fn accepts(&self, row: &MoonlinkRow) -> (ok: bool)
        ensures
            ok == row_fits(self@, row@),
    {
        if row.values.len() != self.columns.len() {
            return false;
        }
        let mut i: usize = 0;
        while i < row.values.len()
            invariant
                i <= row.values.len(),
                row.values.len() == self.columns.len(),
                forall|k: int| 0 <= k < i ==> value_fits(self@[k], #[trigger] row@[k]),
            decreases row.values.len() - i,
        {
            let ty = self.columns[i];
            let fits = match &row.values[i] {
                RowValue::Null => true,
                RowValue::Int32(_) => ty == ColumnType::Int32,
                RowValue::Int64(_) => ty == ColumnType::Int64,
                RowValue::Bool(_) => ty == ColumnType::Bool,
                RowValue::ByteArray(_) => ty == ColumnType::ByteArray,
            };
            if !fits {
                assert(!value_fits(self@[i as int], row@[i as int]));
                return false;
            }
            i += 1;
        }
        true
    }
}

/// How a row is told apart from the others of its table: not at all (the table
/// only grows), or by the values at the given column positions.
#[derive(Clone, Debug)]
pub enum IdentityProp {
    NoIdentity,
    Keys(Vec<usize>),
}

/// The mathematical form of an [`IdentityProp`].
pub enum Identity {
    NoIdentity,
    Keys(Seq<usize>),
}

impl View for IdentityProp {
    type V = Identity;

    open spec fn view(&self) -> Identity {
        match *self {
            IdentityProp::NoIdentity => Identity::NoIdentity,
            IdentityProp::Keys(keys) => Identity::Keys(keys@),
        }
    }
}

impl IdentityProp {
    /// A copy of this policy.
    pub fn copy(&self) -> (out: Self)
        ensures
            out@ == self@,
    {
        match self {
            IdentityProp::NoIdentity => IdentityProp::NoIdentity,
            IdentityProp::Keys(keys) => IdentityProp::Keys(slice_to_vec(keys.as_slice())),
        }
    }
}

/// The values of the three-column sample row: an identifier, a name as the
/// UTF-8 bytes of its text, and an age.
pub open spec fn sample_row(id: i32, name: Seq<char>, age: i32) -> Seq<Value> {
    seq![Value::Int32(id), Value::ByteArray(encode_utf8(name)), Value::Int32(age)]
}

/// The three-column sample row `(id, name, age)`, the name held as its UTF-8
/// bytes.
pub fn test_row(id: i32, name: &str, age: i32) -> (row: MoonlinkRow)
    ensures
        row@ == sample_row(id, name@, age),
{
    let mut values: Vec<RowValue> = Vec::new();
    values.push(RowValue::Int32(id));
    values.push(RowValue::ByteArray(name.as_bytes_vec()));
    values.push(RowValue::Int32(age));
    let row = MoonlinkRow::new(values);
    assert(row@ =~= sample_row(id, name@, age));
    row
}

/// The schema of the sample rows: a 32-bit identifier, a byte-array name and a
/// 32-bit age.
pub open spec fn sample_columns() -> Seq<ColumnType> {
    seq![ColumnType::Int32, ColumnType::ByteArray, ColumnType::Int32]
}

/// The schema that every sample row fits.
pub fn create_test_schema() -> (schema: Schema)
    ensures
        schema@ == sample_columns(),
        forall|id: i32, name: Seq<char>, age: i32|
            row_fits(schema@, #[trigger] sample_row(id, name, age)),
{
    let mut columns: Vec<ColumnType> = Vec::new();
    columns.push(ColumnType::Int32);
    columns.push(ColumnType::ByteArray);
    columns.push(ColumnType::Int32);
    assert(columns@ =~= sample_columns());
    Schema::new(columns)
}

/// The text of a sample row's name: the word `Row`, a space, and the row's
/// identifier in decimal.
pub open spec fn row_label(id: int) -> Seq<char> {
    seq!['R', 'o', 'w', ' '] + decimal_text(id)
}

/// The name of the sample row with identifier `id`.
pub fn row_name(id: i32) -> (name: String)
    ensures
        name@ == row_label(id as int),
{
    proof {
        reveal_strlit("Row ");
        reveal_strlit("Row -");
    }
    let wide: i64 = id as i64;
    if wide < 0 {
        let mut name = String::from_str("Row -");
        push_decimal(&mut name, (-wide) as u64);
        assert(name@ =~= row_label(id as int));
        name
    } else {
        let mut name = String::from_str("Row ");
        push_decimal(&mut name, wide as u64);
        assert(name@ =~= row_label(id as int));
        name
    }
}

/// The sample row with identifier `id`: named by [`row_label`] and aged
/// thirty more than its identifier.
pub open spec fn batch_row(id: int) -> Seq<Value> {
    sample_row(id as i32, row_label(id), (30 + id) as i32)
}

/// The sample rows with the identifiers `start_id, start_id + 1, ..`, `count`
/// of them (none where `count` is not positive).
pub fn batch_rows(start_id: i32, count: i32) -> (rows: Vec<MoonlinkRow>)
    requires
        i32::MIN <= start_id + count <= i32::MAX,
        count > 0 ==> start_id + count + 29 <= i32::MAX,
    ensures
        rows.len() == if count > 0 { count as int } else { 0 },
        forall|k: int| 0 <= k < rows.len() ==> (#[trigger] rows[k])@ == batch_row(start_id + k),
        forall|k: int|
            0 <= k < rows.len() ==> row_id((#[trigger] rows[k])@) == Some((start_id + k) as i32),
{
    let mut rows: Vec<MoonlinkRow> = Vec::new();
    let end: i32 = start_id + count;
    let mut id: i32 = start_id;
    while id < end
        invariant
            end == start_id + count,
            count > 0 ==> end + 29 <= i32::MAX,
            start_id <= id,
            count > 0 ==> id <= end,
            count <= 0 ==> id == start_id,
            rows.len() == id - start_id,
            forall|k: int| 0 <= k < rows.len() ==> (#[trigger] rows[k])@ == batch_row(start_id + k),
        decreases end - id,
    {
        let name = row_name(id);
        rows.push(test_row(id, name.as_str(), 30 + id));
        id += 1;
    }
    rows
}

} // verus!
