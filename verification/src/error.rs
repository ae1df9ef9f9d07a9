use vstd::prelude::*;

verus! {

/// Why an allocation request was rejected.
#[derive(Clone, Copy, Debug, PartialEq, Eq, Structural)]
pub enum OutOfMemory {
    /// The request is larger than the number of free bytes.
    InsufficientTotal,
    /// Enough bytes are free, but no contiguous gap holds the request.
    Fragmentation,
    /// A gap was found, but the table of live blocks has no empty slot left.
    TableExhausted,
}

/// Why a release was rejected.
#[derive(Clone, Copy, Debug, PartialEq, Eq, Structural)]
pub enum InvalidRelease {
    /// The address lies outside the arena.
    UnknownAddress,
    /// The address lies inside the arena, but no live block starts there.
    NoMatchingBlock,
}

} // verus!
