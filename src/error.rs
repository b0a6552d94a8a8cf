use vstd::prelude::*;

verus! {

/// Failures reported by the record decoders and the book mutators.
#[derive(Debug, Clone, PartialEq, Eq)]
pub enum Error {
    /// A record names an instrument that has no book.
    OrderBookNotFound(u64),
    /// The buffer ends before the record does.
    BufferTooSmall,
    /// A field failed validation (a price off the grid, a NaN price).
    InvalidData(String),
    /// The record skips ahead in sequence; carries the instrument and the record's length.
    GapDetected(u64, usize),
}

} // verus!
