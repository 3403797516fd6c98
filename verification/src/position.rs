//! Position deletes: one logically removed row of one data file.

use vstd::prelude::*;

verus! {

/// One deleted row, addressed by the index of its data file in a snapshot's
/// file list and by the row's offset inside that file.
#[derive(Clone, Copy, Debug, PartialEq, Eq, Structural)]
pub struct PositionDelete {
    pub data_file_number: u32,
    pub data_file_row_number: u32,
}

impl PositionDelete {
    /// Builds the position delete for row `data_file_row_number` of file
    /// `data_file_number`.
    pub fn new(data_file_number: u32, data_file_row_number: u32) -> (pos: Self)
        ensures
            pos.data_file_number == data_file_number,
            pos.data_file_row_number == data_file_row_number,
    {
        PositionDelete { data_file_number, data_file_row_number }
    }
}

/// Where the deletion vector of one data file lies: the data file by its index
/// in a snapshot's file list, the container by its index in the snapshot's list
/// of containers, and the blob by its first byte and its length in the container.
#[derive(Clone, Copy, Debug, PartialEq, Eq, Structural)]
pub struct DeletionVectorRef {
    pub data_file_number: u32,
    pub puffin_file_number: u32,
    pub offset: u64,
    pub size: u64,
}

} // verus!
