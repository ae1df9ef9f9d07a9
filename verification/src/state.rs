use vstd::prelude::*;
use crate::error::{InvalidRelease, OutOfMemory};
use crate::layout::{fits, is_lowest_fit, live_bytes, lowest_fit, pairwise_disjoint, within};
use crate::layout::{lemma_live_bytes_update, lemma_lowest_fit_some};
use crate::search::{first_index, is_first_index};
use crate::slot::{Slot, empty_slot};

verus! {

/// Selects the empty records of a table.
pub open spec fn vacant() -> spec_fn(Slot) -> bool {
    |s: Slot| !s.is_live()
}

/// Selects the live blocks that start at `offset`.
pub open spec fn starts_at(offset: int) -> spec_fn(Slot) -> bool {
    |s: Slot| s.is_live() && s.index == offset
}

/// Selects the unused entries of a journal.
pub open spec fn unused() -> spec_fn(Option<usize>) -> bool {
    |e: Option<usize>| e is None
}

/// The journal after a request of `size` bytes was noted: the first unused
/// entry holds `size`; a full journal stays as it is.
pub open spec fn logged(history: Seq<Option<usize>>, size: usize) -> Seq<Option<usize>> {
    match first_index(history, unused()) {
        Some(i) => history.update(i, Some(size)),
        None => history,
    }
}

/// The requested sizes that a journal holds, oldest first.
pub open spec fn recorded(history: Seq<Option<usize>>) -> Seq<usize> {
    history.filter_map(|e: Option<usize>| e)
}

/// The call counter after one more call; it wraps around like the machine
/// word that holds it.
pub open spec fn next_call(calls: nat) -> nat {
    if calls >= usize::MAX {
        0
    } else {
        calls + 1
    }
}

/// What an allocator is, as far as its callers can tell.
pub struct AllocatorState {
    /// Address of the first byte of the arena.
    pub base: nat,
    /// Number of bytes in the arena.
    pub capacity: nat,
    /// The counter of free bytes.
    pub free: nat,
    /// Number of allocation requests received.
    pub calls: nat,
    /// The table of live blocks, in storage order.
    pub slots: Seq<Slot>,
    /// The journal of requested sizes, in storage order.
    pub history: Seq<Option<usize>>,
}

impl AllocatorState {
    /// A new allocator: nothing allocated, nothing noted.
    pub open spec fn fresh(base: nat, capacity: nat, slots: nat, journal: nat) -> AllocatorState {
        AllocatorState {
            base,
            capacity,
            free: capacity,
            calls: 0,
            slots: Seq::new(slots, |i: int| empty_slot()),
            history: Seq::new(journal, |i: int| None),
        }
    }

    /// The arena lies in the address space, the live blocks lie in the arena
    /// and share no byte, and the counter of free bytes is the capacity less
    /// the bytes of the live blocks.
    pub open spec fn wf(self) -> bool {
        &&& self.base + self.capacity <= usize::MAX
        &&& within(self.slots, self.capacity as int)
        &&& pairwise_disjoint(self.slots)
        &&& self.free + live_bytes(self.slots) == self.capacity
    }

    /// The offset of `addr` in the arena, if the arena holds it.
    pub open spec fn translate(self, addr: int) -> Option<int> {
        if self.base <= addr < self.base + self.capacity {
            Some(addr - self.base)
        } else {
            None
        }
    }

    /// The first empty slot of the table.
    pub open spec fn first_empty(self) -> Option<int> {
        first_index(self.slots, vacant())
    }

    /// The slot of the live block that starts at `offset`.
    pub open spec fn block_at(self, offset: int) -> Option<int> {
        first_index(self.slots, starts_at(offset))
    }

    /// `size` bytes fit at `offset`: inside the arena, clear of every live
    /// block.
    pub open spec fn fits(self, offset: int, size: int) -> bool {
        fits(self.slots, self.capacity as int, offset, size)
    }

    /// `offset` is the lowest offset at which `size` bytes fit.
    pub open spec fn is_lowest_fit(self, offset: int, size: int) -> bool {
        is_lowest_fit(self.slots, self.capacity as int, offset, size)
    }

    /// The lowest offset at which `size` bytes fit between the live blocks.
    pub open spec fn lowest_fit(self, size: int) -> Option<int> {
        lowest_fit(self.slots, self.capacity as int, size)
    }

    /// After a request of `size` bytes was noted in the journal.
    pub open spec fn after_log(self, size: usize) -> AllocatorState {
        AllocatorState { history: logged(self.history, size), ..self }
    }

    /// After the block `[offset, offset + size)` was entered in the first
    /// empty slot; a full table stays as it is.
    pub open spec fn after_register(self, offset: usize, size: usize) -> AllocatorState {
        match self.first_empty() {
            Some(i) => AllocatorState { slots: self.slots.update(i, Slot { size, index: offset }), ..self },
            None => self,
        }
    }

    /// After the live block that starts at `offset` was cleared from the
    /// table; without such a block the table stays as it is.
    pub open spec fn after_release(self, offset: int) -> AllocatorState {
        match self.block_at(offset) {
            Some(i) => AllocatorState { slots: self.slots.update(i, empty_slot()), ..self },
            None => self,
        }
    }

    /// What a request of `size` bytes is answered with.
    pub open spec fn alloc_result(self, size: usize) -> Result<usize, OutOfMemory> {
        if size > self.free {
            Err(OutOfMemory::InsufficientTotal)
        } else if self.lowest_fit(size as int) is None {
            Err(OutOfMemory::Fragmentation)
        } else if self.first_empty() is None {
            Err(OutOfMemory::TableExhausted)
        } else {
            Ok((self.base + self.lowest_fit(size as int)->0) as usize)
        }
    }

    /// After a request of `size` bytes: the request is noted and counted, and
    /// if it is granted the block is entered and its bytes leave the counter.
    pub open spec fn after_alloc(self, size: usize) -> AllocatorState {
        let noted = AllocatorState { calls: next_call(self.calls), ..self.after_log(size) };
        if self.alloc_result(size) is Ok {
            AllocatorState {
                free: (self.free - size) as nat,
                ..noted.after_register(self.lowest_fit(size as int)->0 as usize, size)
            }
        } else {
            noted
        }
    }

    /// What a release of `addr` is answered with.
    pub open spec fn dealloc_result(self, addr: usize) -> Result<(), InvalidRelease> {
        match self.translate(addr as int) {
            None => Err(InvalidRelease::UnknownAddress),
            Some(offset) => if self.block_at(offset) is None {
                Err(InvalidRelease::NoMatchingBlock)
            } else {
                Ok(())
            },
        }
    }

    /// After a release of `addr`: if it is accepted the block is cleared and
    /// its bytes return to the counter.
    pub open spec fn after_dealloc(self, addr: usize) -> AllocatorState {
        if self.dealloc_result(addr) is Ok {
            let offset = self.translate(addr as int)->0;
            let i = self.block_at(offset)->0;
            AllocatorState { free: self.free + self.slots[i].size as nat, ..self.after_release(offset) }
        } else {
            self
        }
    }
}

/// A fresh allocator is well formed wherever its arena lies in the address
/// space.
pub proof fn lemma_fresh_wf(base: nat, capacity: nat, slots: nat, journal: nat)
    requires
        base + capacity <= usize::MAX,
    ensures
        AllocatorState::fresh(base, capacity, slots, journal).wf(),
{
    let s = AllocatorState::fresh(base, capacity, slots, journal);
    crate::layout::lemma_live_bytes_of_empty(s.slots);
}

/// Entering a block that fits keeps the live blocks inside the arena and
/// apart from each other.
pub proof fn lemma_register_keeps_layout(blocks: Seq<Slot>, capacity: int, i: int, block: Slot)
    requires
        within(blocks, capacity),
        pairwise_disjoint(blocks),
        0 <= i < blocks.len(),
        !blocks[i].is_live(),
        fits(blocks, capacity, block.index as int, block.size as int),
    ensures
        within(blocks.update(i, block), capacity),
        pairwise_disjoint(blocks.update(i, block)),
{
    let after = blocks.update(i, block);
    assert forall|a: int, b: int|
        0 <= a < b < after.len() && (#[trigger] after[a]).is_live() && (#[trigger] after[b]).is_live() implies after[a].end()
        <= after[b].index || after[b].end() <= after[a].index by {
        if a == i {
            assert(blocks[b].is_live() && blocks[b].clear_of(block.index as int, block.size as int));
        } else if b == i {
            assert(blocks[a].is_live() && blocks[a].clear_of(block.index as int, block.size as int));
        } else {
            assert(blocks[a].is_live() && blocks[b].is_live());
        }
    }
    assert forall|a: int| 0 <= a < after.len() && (#[trigger] after[a]).is_live() implies after[a].end()
        <= capacity by {
        if a != i {
            assert(blocks[a].is_live());
        }
    }
}

/// Clearing a slot keeps the live blocks inside the arena and apart from each
/// other.
pub proof fn lemma_release_keeps_layout(blocks: Seq<Slot>, capacity: int, i: int)
    requires
        within(blocks, capacity),
        pairwise_disjoint(blocks),
        0 <= i < blocks.len(),
    ensures
        within(blocks.update(i, empty_slot()), capacity),
        pairwise_disjoint(blocks.update(i, empty_slot())),
{
    let after = blocks.update(i, empty_slot());
    assert forall|a: int, b: int|
        0 <= a < b < after.len() && (#[trigger] after[a]).is_live() && (#[trigger] after[b]).is_live() implies after[a].end()
        <= after[b].index || after[b].end() <= after[a].index by {
        assert(blocks[a].is_live() && blocks[b].is_live());
    }
    assert forall|a: int| 0 <= a < after.len() && (#[trigger] after[a]).is_live() implies after[a].end()
        <= capacity by {
        assert(blocks[a].is_live());
    }
}

/// A request leaves a well-formed allocator well formed, whatever the answer.
pub proof fn lemma_alloc_keeps_wf(pre: AllocatorState, size: usize)
    requires
        pre.wf(),
    ensures
        pre.after_alloc(size).wf(),
{
    if pre.alloc_result(size) is Ok {
        let offset = pre.lowest_fit(size as int)->0;
        let i = pre.first_empty()->0;
        lemma_lowest_fit_some(pre.slots, pre.capacity as int, size as int);
        assert(is_first_index(pre.slots, vacant(), i));
        assert(0 <= offset && offset + size <= pre.capacity);
        let block = Slot { size, index: offset as usize };
        lemma_register_keeps_layout(pre.slots, pre.capacity as int, i, block);
        lemma_live_bytes_update(pre.slots, i, block);
    }
}

/// A release leaves a well-formed allocator well formed, whatever the answer.
pub proof fn lemma_dealloc_keeps_wf(pre: AllocatorState, addr: usize)
    requires
        pre.wf(),
    ensures
        pre.after_dealloc(addr).wf(),
{
    if pre.dealloc_result(addr) is Ok {
        let offset = pre.translate(addr as int)->0;
        let i = pre.block_at(offset)->0;
        assert(is_first_index(pre.slots, starts_at(offset), i));
        lemma_release_keeps_layout(pre.slots, pre.capacity as int, i);
        lemma_live_bytes_update(pre.slots, i, empty_slot());
    }
}

} // verus!
