use vstd::prelude::*;
use crate::error::{InvalidRelease, OutOfMemory};
use crate::layout::{ascending, fits, live_blocks, live_count};
use crate::layout::{lemma_live_bytes_bound, lemma_live_count_is_len, lemma_lowest_fit_is};
use crate::layout::{lemma_no_fit, lemma_snapshot_layout};
use crate::locator::{collect_live, lowest_gap, sort_by_index};
use crate::search::{is_first_index, lemma_first_index_is, lemma_first_index_none};
use crate::slot::{Slot, empty_slot};
use crate::state::{AllocatorState, recorded, starts_at, unused, vacant};
use crate::state::{lemma_alloc_keeps_wf, lemma_dealloc_keeps_wf, lemma_fresh_wf};

verus! {

/// A first-fit allocator over an arena of `CAP` bytes, with room for `SLOTS`
/// live blocks at a time and a journal of `HIST` requested sizes.
///
/// The arena itself belongs to the caller, who names its first address when
/// the allocator is made; the allocator only manages ranges of it.
pub struct AlphaAlocator<const CAP: usize, const SLOTS: usize, const HIST: usize> {
    base: usize,
    times_called: usize,
    free: usize,
    used_slots: [Slot; SLOTS],
    historic: [Option<usize>; HIST],
}

/// The counters of an allocator at one moment.
#[derive(Clone, Copy, Debug, PartialEq, Eq, Structural)]
pub struct Stats {
    pub calls_served: usize,
    pub free_bytes: usize,
    pub live_block_count: usize,
}

impl<const CAP: usize, const SLOTS: usize, const HIST: usize> View for AlphaAlocator<CAP, SLOTS, HIST> {
    type V = AllocatorState;

    closed spec fn view(&self) -> AllocatorState {
        AllocatorState {
            base: self.base as nat,
            capacity: CAP as nat,
            free: self.free as nat,
            calls: self.times_called as nat,
            slots: self.used_slots@,
            history: self.historic@,
        }
    }
}

impl<const CAP: usize, const SLOTS: usize, const HIST: usize> AlphaAlocator<CAP, SLOTS, HIST> {
    /// The allocator stands for a well-formed state of an arena of `CAP`
    /// bytes, a table of `SLOTS` slots and a journal of `HIST` entries.
    pub open spec fn wf(&self) -> bool {
        &&& self@.wf()
        &&& self@.capacity == CAP
        &&& self@.slots.len() == SLOTS
        &&& self@.history.len() == HIST
    }

    /// An allocator for the arena that starts at address `base`: every byte
    /// free, the table and the journal empty.
    pub fn new(base: usize) -> (a: Self)
        requires
            base + CAP <= usize::MAX,
        ensures
            a.wf(),
            a@ == AllocatorState::fresh(base as nat, CAP as nat, SLOTS as nat, HIST as nat),
    {
        let a = AlphaAlocator {
            base,
            times_called: 0,
            free: CAP,
            used_slots: [Slot { size: 0, index: 0 }; SLOTS],
            historic: [None; HIST],
        };
        proof {
            let fresh = AllocatorState::fresh(base as nat, CAP as nat, SLOTS as nat, HIST as nat);
            assert(a@.slots =~= fresh.slots);
            assert(a@.history =~= fresh.history);
            lemma_fresh_wf(base as nat, CAP as nat, SLOTS as nat, HIST as nat);
        }
        a
    }

    /// The live blocks in ascending order of their offsets, at the front of an
    /// array, and their number. The entries behind them are empty records.
    pub fn snapshot_sorted(&self) -> (snap: ([Slot; SLOTS], usize))
        ensures
            snap.1 <= SLOTS,
            snap.1 == live_count(self@.slots),
            ascending(snap.0@.take(snap.1 as int)),
            snap.0@.take(snap.1 as int).to_multiset() == live_blocks(self@.slots).to_multiset(),
            forall|k: int| snap.1 <= k < SLOTS ==> snap.0@[k] == empty_slot(),
    {
        let (mut blocks, count) = collect_live(&self.used_slots);
        proof {
            lemma_live_count_is_len(self@.slots);
        }
        sort_by_index(&mut blocks, count);
        (blocks, count)
    }

    /// The lowest offset at which `size` bytes fit between the live blocks
    /// (first fit), or `None` where no gap is large enough.
    pub fn find_free_offset(&self, size: usize) -> (r: Option<usize>)
        requires
            self.wf(),
        ensures
            match r {
                Some(offset) => self@.is_lowest_fit(offset as int, size as int),
                None => forall|p: int| !self@.fits(p, size as int),
            },
    {
        let (blocks, count) = self.snapshot_sorted();
        proof {
            lemma_snapshot_layout(self@.slots, blocks@.take(count as int), CAP as int);
        }
        lowest_gap(&blocks, count, CAP, size)
    }

    /// Enters the block `[index, index + size)` in the first empty slot of the
    /// table and hands back the record, or `None` where every slot holds a
    /// live block. Neither the counter of free bytes nor the journal changes.
    pub fn alocate_slot(&mut self, index: usize, size: usize) -> (r: Option<Slot>)
        ensures
            final(self)@ == old(self)@.after_register(index, size),
            r == match old(self)@.first_empty() {
                Some(_) => Some(Slot { size, index }),
                None => None,
            },
    {
        let mut i: usize = 0;
        while i < SLOTS
            invariant
                i <= SLOTS,
                *self == *old(self),
                forall|k: int| 0 <= k < i ==> (#[trigger] self@.slots[k]).is_live(),
            decreases SLOTS - i,
        {
            if self.used_slots[i].size == 0 {
                let block = Slot { size, index };
                proof {
                    assert(vacant()(self@.slots[i as int]));
                    lemma_first_index_is(self@.slots, vacant(), i as int);
                }
                self.used_slots[i] = block;
                return Some(block);
            }
            i += 1;
        }
        proof {
            lemma_first_index_none(self@.slots, vacant());
        }
        None
    }

    /// Enters the block `[offset, offset + size)` in the first empty slot of
    /// the table; `false` where every slot holds a live block.
    pub fn register_slot(&mut self, offset: usize, size: usize) -> (done: bool)
        ensures
            final(self)@ == old(self)@.after_register(offset, size),
            done == old(self)@.first_empty() is Some,
    {
        self.alocate_slot(offset, size).is_some()
    }

    /// Clears the live block that starts at `offset` from the table and hands
    /// back its length, or `None` where no live block starts there. The
    /// counter of free bytes does not change.
    pub fn release_slot(&mut self, offset: usize) -> (r: Option<usize>)
        ensures
            final(self)@ == old(self)@.after_release(offset as int),
            r == match old(self)@.block_at(offset as int) {
                Some(i) => Some(old(self)@.slots[i].size),
                None => None,
            },
    {
        let mut i: usize = 0;
        while i < SLOTS
            invariant
                i <= SLOTS,
                *self == *old(self),
                forall|k: int| 0 <= k < i ==> !starts_at(offset as int)(#[trigger] self@.slots[k]),
            decreases SLOTS - i,
        {
            let block = self.used_slots[i];
            if block.size > 0 && block.index == offset {
                proof {
                    assert(starts_at(offset as int)(self@.slots[i as int]));
                    lemma_first_index_is(self@.slots, starts_at(offset as int), i as int);
                }
                self.used_slots[i] = Slot { size: 0, index: 0 };
                return Some(block.size);
            }
            i += 1;
        }
        proof {
            lemma_first_index_none(self@.slots, starts_at(offset as int));
        }
        None
    }

    /// The offset of the address `addr` in the arena, or `None` where the
    /// arena does not hold it.
    pub fn identify_adress(&self, addr: usize) -> (r: Option<usize>)
        ensures
            match r {
                Some(offset) => self@.translate(addr as int) == Some(offset as int),
                None => self@.translate(addr as int) is None,
            },
    {
        if addr < self.base {
            return None;
        }
        let offset = addr - self.base;
        if offset < CAP {
            Some(offset)
        } else {
            None
        }
    }

    /// Notes a request of `size` bytes in the first unused entry of the
    /// journal. In a full journal the request is not noted.
    pub fn reg_historic(&mut self, size: usize)
        ensures
            final(self)@ == old(self)@.after_log(size),
    {
        let mut i: usize = 0;
        while i < HIST
            invariant
                i <= HIST,
                *self == *old(self),
                forall|k: int| 0 <= k < i ==> !unused()(#[trigger] self@.history[k]),
            decreases HIST - i,
        {
            if self.historic[i].is_none() {
                proof {
                    assert(unused()(self@.history[i as int]));
                    lemma_first_index_is(self@.history, unused(), i as int);
                }
                self.historic[i] = Some(size);
                return;
            }
            i += 1;
        }
        proof {
            lemma_first_index_none(self@.history, unused());
        }
    }

    /// Serves a request of `size` bytes and answers with the address of the
    /// block.
    ///
    /// The request is noted in the journal and counted. It is rejected with
    /// `InsufficientTotal` where `size` exceeds the free bytes, else with
    /// `Fragmentation` where no gap holds `size` bytes, else with
    /// `TableExhausted` where the table has no empty slot; a rejected request
    /// changes neither the table nor the counter of free bytes. Otherwise the
    /// block starts at the lowest offset at which it fits.
    ///
    /// Alignment is not part of the placement: blocks are placed to the byte,
    /// whatever `_align` asks for.
    pub fn allocate(&mut self, size: usize, _align: usize) -> (r: Result<usize, OutOfMemory>)
        requires
            old(self).wf(),
        ensures
            final(self).wf(),
            final(self)@ == old(self)@.after_alloc(size),
            r == old(self)@.alloc_result(size),
            size > old(self)@.free ==> r == Err::<usize, OutOfMemory>(OutOfMemory::InsufficientTotal),
            r is Err ==> final(self)@.slots == old(self)@.slots && final(self)@.free == old(self)@.free,
            r matches Ok(addr) ==> old(self)@.base <= addr && addr + size <= old(self)@.base + CAP,
    {
        proof {
            lemma_alloc_keeps_wf(old(self)@, size);
        }
        self.reg_historic(size);
        self.times_called = self.times_called.wrapping_add(1);
        if size > self.free {
            return Err(OutOfMemory::InsufficientTotal);
        }
        match self.find_free_offset(size) {
            None => {
                proof {
                    let pre = old(self)@;
                    assert forall|p: int| !fits(pre.slots, pre.capacity as int, p, size as int) by {
                        assert(!self@.fits(p, size as int));
                    }
                    lemma_no_fit(pre.slots, pre.capacity as int, size as int);
                }
                Err(OutOfMemory::Fragmentation)
            },
            Some(offset) => {
                proof {
                    lemma_lowest_fit_is(old(self)@.slots, CAP as int, offset as int, size as int);
                }
                if self.register_slot(offset, size) {
                    self.free = self.free - size;
                    Ok(self.base + offset)
                } else {
                    Err(OutOfMemory::TableExhausted)
                }
            },
        }
    }

    /// Releases the block that starts at the address `addr`.
    ///
    /// The release is rejected with `UnknownAddress` where `addr` lies outside
    /// the arena, and with `NoMatchingBlock` where it lies inside and no live
    /// block starts there; a rejected release changes nothing. Otherwise the
    /// block leaves the table and its length returns to the free bytes. The
    /// length comes from the table: `_size` plays no part.
    pub fn deallocate(&mut self, addr: usize, _size: usize) -> (r: Result<(), InvalidRelease>)
        requires
            old(self).wf(),
        ensures
            final(self).wf(),
            final(self)@ == old(self)@.after_dealloc(addr),
            r == old(self)@.dealloc_result(addr),
            r is Err ==> final(self)@ == old(self)@,
    {
        proof {
            lemma_dealloc_keeps_wf(old(self)@, addr);
        }
        match self.identify_adress(addr) {
            None => Err(InvalidRelease::UnknownAddress),
            Some(offset) => match self.release_slot(offset) {
                None => Err(InvalidRelease::NoMatchingBlock),
                Some(length) => {
                    proof {
                        let i = old(self)@.block_at(offset as int)->0;
                        assert(is_first_index(old(self)@.slots, starts_at(offset as int), i));
                        lemma_live_bytes_bound(old(self)@.slots, i);
                    }
                    self.free = self.free + length;
                    Ok(())
                },
            },
        }
    }

    /// Requests received, bytes free and blocks live at this moment.
    pub fn stats(&self) -> (s: Stats)
        ensures
            s.calls_served == self@.calls,
            s.free_bytes == self@.free,
            s.live_block_count == live_count(self@.slots),
    {
        let mut live: usize = 0;
        let mut i: usize = 0;
        proof {
            assert(self@.slots.take(0) =~= Seq::<Slot>::empty());
        }
        while i < SLOTS
            invariant
                i <= SLOTS,
                live <= i,
                live == live_count(self@.slots.take(i as int)),
            decreases SLOTS - i,
        {
            proof {
                assert(self@.slots.take(i + 1).drop_last() =~= self@.slots.take(i as int));
            }
            if self.used_slots[i].size > 0 {
                live += 1;
            }
            i += 1;
        }
        proof {
            assert(self@.slots.take(SLOTS as int) =~= self@.slots);
        }
        Stats { calls_served: self.times_called, free_bytes: self.free, live_block_count: live }
    }

    /// The requested sizes that the journal holds, oldest first, at the front
    /// of an array, and their number. The entries behind them are 0.
    pub fn dump_history(&self) -> (dump: ([usize; HIST], usize))
        ensures
            dump.1 <= HIST,
            dump.0@.take(dump.1 as int) == recorded(self@.history),
            forall|k: int| dump.1 <= k < HIST ==> dump.0@[k] == 0,
    {
        let mut sizes = [0usize; HIST];
        let mut count: usize = 0;
        let mut i: usize = 0;
        proof {
            assert(self@.history.take(0) =~= Seq::<Option<usize>>::empty());
            assert(sizes@.take(0) =~= recorded(self@.history.take(0)));
        }
        while i < HIST
            invariant
                i <= HIST,
                count <= i,
                sizes@.take(count as int) == recorded(self@.history.take(i as int)),
                forall|k: int| count <= k < HIST ==> sizes@[k] == 0,
            decreases HIST - i,
        {
            proof {
                self@.history.lemma_filter_map_take_succ(|e: Option<usize>| e, i as int);
            }
            match self.historic[i] {
                Some(size) => {
                    sizes[count] = size;
                    proof {
                        assert(sizes@.take(count + 1) =~= recorded(self@.history.take(i as int)) + seq![size]);
                    }
                    count += 1;
                },
                None => {},
            }
            i += 1;
        }
        proof {
            assert(self@.history.take(HIST as int) =~= self@.history);
        }
        (sizes, count)
    }
}

} // verus!
