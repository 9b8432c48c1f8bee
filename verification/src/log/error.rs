use vstd::prelude::*;

verus! {

/// Why an operation of the storage engine failed.
#[derive(Clone, Copy, Debug, PartialEq, Eq, Structural)]
pub enum LogError {
    /// The data ends before what was asked for: an empty index, an index
    /// entry past the written ones, an index without room for another entry,
    /// or a store shorter than a frame claims.
    UnexpectedEof,
    /// A negative index position other than the one that names the last entry.
    InvalidInput,
    /// The active segment cannot take another record.
    SegmentFull,
    /// No segment owns the offset.
    NotFound,
    /// The bytes of a frame are not a record.
    Decode,
}

} // verus!
