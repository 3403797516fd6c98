//! Reading identifiers out of columnar data: the 32-bit integer column that a
//! decoded data file hands over, slot by slot.

use arrow_array::{Array, Int32Array};
use vstd::prelude::*;

verus! {

/// A column of 32-bit integers as a decoded data file hands it over: an
/// `arrow_array::Int32Array`. Nothing inside the array is visible to the
/// proofs; what it holds is [`column_values`].
#[verifier::external_body]
pub struct Int32Column {
    pub array: Int32Array,
}

/// What a column holds, slot by slot: nothing in a null slot, else the value.
pub uninterp spec fn column_values(column: Int32Column) -> Seq<Option<i32>>;

/// `PrimitiveArray::len`: the number of slots of the array.
#[verifier::external_body]
fn column_len(column: &Int32Column) -> (n: usize)
    ensures
        n == column_values(*column).len(),
{
    column.array.len()
}

/// `Array::is_null`: whether the slot at `index` is null. The call may panic
/// beyond the last slot, so the index must lie inside the array.
#[verifier::external_body]
fn column_is_null(column: &Int32Column, index: usize) -> (null: bool)
    requires
        index < column_values(*column).len(),
    ensures
        null == column_values(*column)[index as int].is_none(),
{
    column.array.is_null(index)
}

/// `PrimitiveArray::value`: the value in the slot at `index`, which is the
/// slot's own where the slot is not null and arbitrary where it is. The call
/// panics beyond the last slot, so the index must lie inside the array.
#[verifier::external_body]
fn column_value(column: &Int32Column, index: usize) -> (value: i32)
    requires
        index < column_values(*column).len(),
    ensures
        column_values(*column)[index as int] matches Some(held) ==> value == held,
{
    column.array.value(index)
}

/// The identifiers that a column holds, slot by slot: nothing for a null
/// slot, else the value.
pub fn read_ids_from_column(column: &Int32Column) -> (ids: Vec<Option<i32>>)
    ensures
        ids@ == column_values(*column),
{
    let n = column_len(column);
    let mut ids: Vec<Option<i32>> = Vec::new();
    let mut i: usize = 0;
    while i < n
        invariant
            i <= n,
            n == column_values(*column).len(),
            ids@ == column_values(*column).take(i as int),
        decreases n - i,
    {
        let id = if column_is_null(column, i) {
            None
        } else {
            Some(column_value(column, i))
        };
        ids.push(id);
        assert(ids@ =~= column_values(*column).take(i + 1));
        i += 1;
    }
    assert(column_values(*column).take(n as int) =~= column_values(*column));
    ids
}

} // verus!
