use vstd::prelude::*;

verus! {

/// One record of the live-allocation table.
///
/// A record with `size > 0` is a live block occupying `[index, index + size)`;
/// a record with `size == 0` is an empty table slot.
#[derive(Clone, Copy, Debug, PartialEq, Eq, Structural)]
pub struct Slot {
    pub size: usize,
    pub index: usize,
}

impl Slot {
    /// The record describes a live block.
    pub open spec fn is_live(self) -> bool {
        self.size > 0
    }

    /// One past the last byte of the block.
    pub open spec fn end(self) -> int {
        self.index + self.size
    }

    /// The block shares no byte with `[offset, offset + size)`.
    pub open spec fn clear_of(self, offset: int, size: int) -> bool {
        offset + size <= self.index || self.end() <= offset
    }

    /// Byte `p` belongs to the block.
    pub open spec fn holds(self, p: int) -> bool {
        self.is_live() && self.index <= p < self.end()
    }
}

/// The record of an empty table slot.
pub open spec fn empty_slot() -> Slot {
    Slot { size: 0, index: 0 }
}

} // verus!
