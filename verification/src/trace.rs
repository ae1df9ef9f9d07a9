use vstd::prelude::*;
use crate::state::AllocatorState;

verus! {

/// One call on an allocator.
pub enum Op {
    /// A request of `size` bytes.
    Allocate { size: usize },
    /// A release of the block at `addr`.
    Deallocate { addr: usize },
}

impl AllocatorState {
    /// The state after one call.
    pub open spec fn after(self, op: Op) -> AllocatorState {
        match op {
            Op::Allocate { size } => self.after_alloc(size),
            Op::Deallocate { addr } => self.after_dealloc(addr),
        }
    }

    /// The state after a sequence of calls, made in order.
    pub open spec fn after_all(self, ops: Seq<Op>) -> AllocatorState
        decreases ops.len(),
    {
        if ops.len() == 0 {
            self
        } else {
            self.after_all(ops.drop_last()).after(ops.last())
        }
    }
}

/// The bytes that the requests among `ops` ask for together.
pub open spec fn requested_bytes(ops: Seq<Op>) -> nat
    decreases ops.len(),
{
    if ops.len() == 0 {
        0
    } else {
        requested_bytes(ops.drop_last()) + match ops.last() {
            Op::Allocate { size } => size as nat,
            Op::Deallocate { .. } => 0,
        }
    }
}

} // verus!
