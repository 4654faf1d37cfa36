use vstd::prelude::*;

verus! {

/// The failure classes of this library. Every fallible operation reports one
/// of these instead of aborting, so a caller can decide whether to terminate,
/// skip the dataset, or retry with another finder strategy.
#[derive(Clone, Copy, Debug, PartialEq, Eq, Structural)]
pub enum AirportError {
    /// The reference file could not be read. Only callers that do the actual
    /// reading produce this; the library itself never touches a file.
    Io,
    /// A data row did not have exactly five fields, or its identifier field
    /// was not an unsigned decimal number in range. Carries the 0-based
    /// position of the first offending data row.
    Decode(usize),
    /// Two distinct records handed to the exact-hash finder carried the very
    /// same coordinate bit patterns, so that strategy cannot index them.
    Collision,
    /// A nearest-neighbor query was made against an empty index.
    EmptyIndex,
    /// The exact-hash finder was queried with a coordinate that is not stored
    /// verbatim; that strategy has no notion of "nearest".
    NoExactMatch,
}

} // verus!
