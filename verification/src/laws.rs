use vstd::prelude::*;
use crate::error::{InvalidRelease, OutOfMemory};
use crate::layout::{fits, live_bytes, live_count, occupied, pairwise_disjoint};
use crate::layout::{lemma_live_bytes_update, lemma_live_count_bound, lemma_live_count_update};
use crate::layout::{lemma_lowest_fit_is, lemma_lowest_fit_some};
use crate::search::{is_first_index, lemma_first_index_exists, lemma_first_index_none};
use crate::slot::{Slot, empty_slot};
use crate::state::{AllocatorState, starts_at, vacant};
use crate::state::{lemma_alloc_keeps_wf, lemma_dealloc_keeps_wf, lemma_fresh_wf};
use crate::trace::{Op, requested_bytes};

verus! {

/// Calls made on a well-formed allocator, in whatever order, leave it well
/// formed, and leave its arena and the size of its table as they were.
pub proof fn lemma_calls_keep_wf(init: AllocatorState, ops: Seq<Op>)
    requires
        init.wf(),
    ensures
        init.after_all(ops).wf(),
        init.after_all(ops).base == init.base,
        init.after_all(ops).capacity == init.capacity,
        init.after_all(ops).slots.len() == init.slots.len(),
    decreases ops.len(),
{
    if ops.len() > 0 {
        let before = init.after_all(ops.drop_last());
        lemma_calls_keep_wf(init, ops.drop_last());
        match ops.last() {
            Op::Allocate { size } => lemma_alloc_keeps_wf(before, size),
            Op::Deallocate { addr } => lemma_dealloc_keeps_wf(before, addr),
        }
    }
}

/// Whatever requests and releases are made, in whatever order, no two live
/// blocks ever share a byte.
pub proof fn law_live_blocks_never_overlap(init: AllocatorState, ops: Seq<Op>)
    requires
        init.wf(),
    ensures
        pairwise_disjoint(init.after_all(ops).slots),
{
    lemma_calls_keep_wf(init, ops);
}

/// After every call the free bytes and the bytes of the live blocks add up to
/// the capacity.
pub proof fn law_free_and_live_bytes_make_capacity(init: AllocatorState, ops: Seq<Op>)
    requires
        init.wf(),
    ensures
        init.after_all(ops).free + live_bytes(init.after_all(ops).slots) == init.capacity,
{
    lemma_calls_keep_wf(init, ops);
}

/// First fit is deterministic: once a live block below which every byte is
/// occupied has been released, a request no larger than that block is placed
/// where the block stood.
pub proof fn law_released_lowest_block_is_reused(pre: AllocatorState, i: int, size: usize)
    requires
        pre.wf(),
        0 <= i < pre.slots.len(),
        pre.slots[i].is_live(),
        0 < size <= pre.slots[i].size,
        forall|p: int| 0 <= p < pre.slots[i].index ==> #[trigger] occupied(pre.slots, p),
    ensures
        pre.dealloc_result((pre.base + pre.slots[i].index) as usize) == Ok::<(), InvalidRelease>(()),
        pre.after_dealloc((pre.base + pre.slots[i].index) as usize).alloc_result(size) == Ok::<
            usize,
            OutOfMemory,
        >((pre.base + pre.slots[i].index) as usize),
{
    let block = pre.slots[i];
    let offset = block.index as int;
    let addr = (pre.base + offset) as usize;
    assert(block.end() <= pre.capacity);
    assert(pre.translate(addr as int) == Some(offset));
    assert(starts_at(offset)(pre.slots[i]));
    lemma_first_index_exists(pre.slots, starts_at(offset), i);
    let j = pre.block_at(offset)->0;
    assert(is_first_index(pre.slots, starts_at(offset), j));
    assert(j == i) by {
        if j < i {
            assert(pre.slots[j].is_live() && pre.slots[i].is_live());
        }
    }
    let post = pre.after_dealloc(addr);
    assert(post.slots == pre.slots.update(i, empty_slot()));
    lemma_live_bytes_update(pre.slots, i, empty_slot());
    assert forall|k: int| 0 <= k < post.slots.len() && (#[trigger] post.slots[k]).is_live() implies post.slots[k].clear_of(
        offset,
        size as int,
    ) by {
        assert(pre.slots[k].is_live());
        if k < i {
            assert(pre.slots[k].is_live() && pre.slots[i].is_live());
        } else {
            assert(pre.slots[i].is_live() && pre.slots[k].is_live());
        }
    }
    assert forall|p: int| 0 <= p < offset implies !fits(post.slots, post.capacity as int, p, size as int) by {
        assert(occupied(pre.slots, p));
        let k = choose|k: int| 0 <= k < pre.slots.len() && (#[trigger] pre.slots[k]).holds(p);
        assert(k != i);
        assert(post.slots[k].is_live() && !post.slots[k].clear_of(p, size as int));
    }
    lemma_lowest_fit_is(post.slots, post.capacity as int, offset, size as int);
    assert(vacant()(post.slots[i]));
    lemma_first_index_exists(post.slots, vacant(), i);
}

/// Call `k` of `ops`, made on `init` after the calls before it, is a request
/// that was answered with the address `addr`.
pub open spec fn answered_with(init: AllocatorState, ops: Seq<Op>, k: int, addr: usize) -> bool {
    &&& 0 <= k < ops.len()
    &&& ops[k] matches Op::Allocate { size }
    &&& init.after_all(ops.take(k)).alloc_result(size) == Ok::<usize, OutOfMemory>(addr)
}

/// Some request among `ops`, made on `init` in order, was answered with the
/// address `addr`.
pub open spec fn was_returned(init: AllocatorState, ops: Seq<Op>, addr: usize) -> bool {
    exists|k: int| #[trigger] answered_with(init, ops, k, addr)
}

/// What was returned in a sequence of calls stays returned when a call
/// follows.
proof fn lemma_returned_earlier(init: AllocatorState, ops: Seq<Op>, addr: usize)
    requires
        ops.len() > 0,
        was_returned(init, ops.drop_last(), addr),
    ensures
        was_returned(init, ops, addr),
{
    let k = choose|k: int| #[trigger] answered_with(init, ops.drop_last(), k, addr);
    assert(ops.drop_last().take(k) =~= ops.take(k));
    assert(answered_with(init, ops, k, addr));
}

/// Every live block of an allocator that started without one stands at an
/// address that a request returned.
proof fn lemma_live_blocks_were_returned(init: AllocatorState, ops: Seq<Op>, i: int)
    requires
        init.wf(),
        forall|k: int| 0 <= k < init.slots.len() ==> !(#[trigger] init.slots[k]).is_live(),
        0 <= i < init.after_all(ops).slots.len(),
        init.after_all(ops).slots[i].is_live(),
    ensures
        was_returned(init, ops, (init.base + init.after_all(ops).slots[i].index) as usize),
    decreases ops.len(),
{
    if ops.len() > 0 {
        let earlier = ops.drop_last();
        let before = init.after_all(earlier);
        let now = init.after_all(ops);
        lemma_calls_keep_wf(init, earlier);
        match ops.last() {
            Op::Allocate { size } => {
                if before.alloc_result(size) is Ok && i == before.first_empty()->0 {
                    lemma_lowest_fit_some(before.slots, before.capacity as int, size as int);
                    assert(ops.take(ops.len() - 1) =~= earlier);
                    assert(answered_with(init, ops, ops.len() - 1, (init.base + now.slots[i].index) as usize));
                } else {
                    if before.alloc_result(size) is Ok {
                        assert(is_first_index(before.slots, vacant(), before.first_empty()->0));
                    }
                    assert(now.slots[i] == before.slots[i]);
                    lemma_live_blocks_were_returned(init, earlier, i);
                    lemma_returned_earlier(init, ops, (init.base + now.slots[i].index) as usize);
                }
            },
            Op::Deallocate { addr } => {
                if before.dealloc_result(addr) is Ok {
                    let offset = before.translate(addr as int)->0;
                    assert(is_first_index(before.slots, starts_at(offset), before.block_at(offset)->0));
                }
                assert(now.slots[i] == before.slots[i]);
                lemma_live_blocks_were_returned(init, earlier, i);
                lemma_returned_earlier(init, ops, (init.base + now.slots[i].index) as usize);
            },
        }
    }
}

/// Releasing an address that no request has returned is rejected, and changes
/// nothing, whatever calls were made on the allocator since it was new.
pub proof fn law_unreturned_address_is_rejected(
    base: nat,
    capacity: nat,
    slots: nat,
    journal: nat,
    ops: Seq<Op>,
    addr: usize,
)
    requires
        base + capacity <= usize::MAX,
        !was_returned(AllocatorState::fresh(base, capacity, slots, journal), ops, addr),
    ensures
        AllocatorState::fresh(base, capacity, slots, journal).after_all(ops).dealloc_result(addr) is Err,
        AllocatorState::fresh(base, capacity, slots, journal).after_all(ops).after_dealloc(addr)
            == AllocatorState::fresh(base, capacity, slots, journal).after_all(ops),
{
    let init = AllocatorState::fresh(base, capacity, slots, journal);
    let now = init.after_all(ops);
    lemma_fresh_wf(base, capacity, slots, journal);
    lemma_calls_keep_wf(init, ops);
    if now.dealloc_result(addr) is Ok {
        let offset = now.translate(addr as int)->0;
        let i = now.block_at(offset)->0;
        assert(is_first_index(now.slots, starts_at(offset), i));
        lemma_live_blocks_were_returned(init, ops, i);
    }
}

/// The call is a request of at least one byte.
pub open spec fn is_request(op: Op) -> bool {
    op matches Op::Allocate { size } && size > 0
}

/// Every call of `ops` is a request of at least one byte.
pub open spec fn only_requests(ops: Seq<Op>) -> bool {
    forall|k: int| 0 <= k < ops.len() ==> is_request(#[trigger] ops[k])
}

/// The live blocks of `blocks` cover the bytes below `used`, and none beyond.
spec fn packed(blocks: Seq<Slot>, used: int) -> bool {
    &&& forall|p: int| 0 <= p < used ==> #[trigger] occupied(blocks, p)
    &&& forall|k: int| 0 <= k < blocks.len() && (#[trigger] blocks[k]).is_live() ==> blocks[k].end() <= used
}

/// The first calls of a sequence ask for no more bytes than all of them.
proof fn lemma_requested_bytes_grow(ops: Seq<Op>, n: int)
    requires
        0 <= n <= ops.len(),
    ensures
        requested_bytes(ops.take(n)) <= requested_bytes(ops),
    decreases ops.len(),
{
    if n == ops.len() {
        assert(ops.take(n) =~= ops);
    } else {
        assert(ops.drop_last().take(n) =~= ops.take(n));
        lemma_requested_bytes_grow(ops.drop_last(), n);
    }
}

/// In a packed table with an empty slot a request within the free bytes is
/// placed right behind the bytes in use.
proof fn lemma_packed_request(pre: AllocatorState, size: usize)
    requires
        pre.wf(),
        packed(pre.slots, pre.capacity - pre.free),
        0 < size <= pre.free,
        live_count(pre.slots) < pre.slots.len(),
    ensures
        pre.alloc_result(size) == Ok::<usize, OutOfMemory>((pre.base + pre.capacity - pre.free) as usize),
        pre.first_empty() is Some,
        pre.lowest_fit(size as int) == Some(pre.capacity - pre.free),
{
    let used = pre.capacity - pre.free;
    assert forall|p: int| 0 <= p < used implies !fits(pre.slots, pre.capacity as int, p, size as int) by {
        assert(occupied(pre.slots, p));
        let k = choose|k: int| 0 <= k < pre.slots.len() && (#[trigger] pre.slots[k]).holds(p);
        assert(pre.slots[k].is_live() && !pre.slots[k].clear_of(p, size as int));
    }
    lemma_lowest_fit_is(pre.slots, pre.capacity as int, used, size as int);
    lemma_live_count_bound(pre.slots);
    lemma_first_index_none(pre.slots, vacant());
    if pre.first_empty() is None {
        assert forall|k: int| 0 <= k < pre.slots.len() implies (#[trigger] pre.slots[k]).is_live() by {
            assert(!vacant()(pre.slots[k]));
        }
    }
}

/// Requests made on a new allocator, within its bytes and its slots, leave
/// the table packed, with one live block for each request.
proof fn lemma_requests_pack(base: nat, capacity: nat, slots: nat, journal: nat, ops: Seq<Op>)
    requires
        base + capacity <= usize::MAX,
        only_requests(ops),
        requested_bytes(ops) <= capacity,
        ops.len() <= slots,
    ensures
        AllocatorState::fresh(base, capacity, slots, journal).after_all(ops).wf(),
        AllocatorState::fresh(base, capacity, slots, journal).after_all(ops).base == base,
        AllocatorState::fresh(base, capacity, slots, journal).after_all(ops).capacity == capacity,
        AllocatorState::fresh(base, capacity, slots, journal).after_all(ops).slots.len() == slots,
        AllocatorState::fresh(base, capacity, slots, journal).after_all(ops).free == capacity
            - requested_bytes(ops),
        live_count(AllocatorState::fresh(base, capacity, slots, journal).after_all(ops).slots)
            == ops.len(),
        packed(
            AllocatorState::fresh(base, capacity, slots, journal).after_all(ops).slots,
            requested_bytes(ops) as int,
        ),
    decreases ops.len(),
{
    let init = AllocatorState::fresh(base, capacity, slots, journal);
    lemma_fresh_wf(base, capacity, slots, journal);
    if ops.len() == 0 {
        lemma_live_count_bound(init.slots);
        assert(live_count(init.slots) == 0) by {
            lemma_no_live_count(init.slots);
        }
    } else {
        let earlier = ops.drop_last();
        assert(only_requests(earlier)) by {
            assert forall|k: int| 0 <= k < earlier.len() implies is_request(#[trigger] earlier[k]) by {
                assert(is_request(ops[k]));
            }
        }
        lemma_requests_pack(base, capacity, slots, journal, earlier);
        let before = init.after_all(earlier);
        assert(is_request(ops[ops.len() - 1]));
        let size = ops.last()->size;
        lemma_packed_request(before, size);
        lemma_alloc_keeps_wf(before, size);
        let now = before.after_alloc(size);
        let i = before.first_empty()->0;
        let used = requested_bytes(earlier) as int;
        let block = Slot { size, index: used as usize };
        assert(is_first_index(before.slots, vacant(), i));
        assert(now.slots == before.slots.update(i, block));
        lemma_live_count_update(before.slots, i, block);
        assert forall|p: int| 0 <= p < used + size implies #[trigger] occupied(now.slots, p) by {
            if p < used {
                assert(occupied(before.slots, p));
                let k = choose|k: int| 0 <= k < before.slots.len() && (#[trigger] before.slots[k]).holds(p);
                assert(now.slots[k].holds(p));
            } else {
                assert(now.slots[i].holds(p));
            }
        }
        assert forall|k: int| 0 <= k < now.slots.len() && (#[trigger] now.slots[k]).is_live() implies now.slots[k].end()
            <= used + size by {
            if k != i {
                assert(before.slots[k].is_live());
            }
        }
    }
}

/// A table without live blocks counts none.
proof fn lemma_no_live_count(blocks: Seq<Slot>)
    requires
        forall|i: int| 0 <= i < blocks.len() ==> !(#[trigger] blocks[i]).is_live(),
    ensures
        live_count(blocks) == 0,
    decreases blocks.len(),
{
    if blocks.len() > 0 {
        assert(!blocks[blocks.len() - 1].is_live());
        lemma_no_live_count(blocks.drop_last());
    }
}

/// Requests made on a new allocator are all granted, each with a block inside
/// the arena, as long as together they ask for no more bytes than the arena
/// has and are no more than the table has slots.
pub proof fn law_requests_within_budget_are_granted(
    base: nat,
    capacity: nat,
    slots: nat,
    journal: nat,
    ops: Seq<Op>,
    i: int,
)
    requires
        base + capacity <= usize::MAX,
        only_requests(ops),
        requested_bytes(ops) <= capacity,
        ops.len() <= slots,
        0 <= i < ops.len(),
    ensures
        AllocatorState::fresh(base, capacity, slots, journal).after_all(ops.take(i)).alloc_result(
            ops[i]->size,
        ) matches Ok(addr) && base <= addr < base + capacity && addr + ops[i]->size <= base + capacity,
{
    let earlier = ops.take(i);
    assert(only_requests(earlier)) by {
        assert forall|k: int| 0 <= k < earlier.len() implies is_request(#[trigger] earlier[k]) by {
            assert(is_request(ops[k]));
        }
    }
    assert(is_request(ops[i]));
    lemma_requested_bytes_grow(ops, i);
    lemma_requested_bytes_grow(ops, i + 1);
    assert(ops.take(i + 1).drop_last() =~= earlier);
    lemma_requests_pack(base, capacity, slots, journal, earlier);
    let before = AllocatorState::fresh(base, capacity, slots, journal).after_all(earlier);
    lemma_packed_request(before, ops[i]->size);
}

} // verus!
