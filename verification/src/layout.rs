use vstd::prelude::*;
use vstd::seq_lib::{to_multiset_build, to_multiset_contains};
use crate::slot::Slot;

verus! {

/// Every live block of `blocks` ends at or before `capacity`.
pub open spec fn within(blocks: Seq<Slot>, capacity: int) -> bool {
    forall|i: int|
        0 <= i < blocks.len() && (#[trigger] blocks[i]).is_live() ==> blocks[i].end() <= capacity
}

/// No two live blocks of `blocks` share a byte.
pub open spec fn pairwise_disjoint(blocks: Seq<Slot>) -> bool {
    forall|i: int, j: int|
        0 <= i < j < blocks.len() && (#[trigger] blocks[i]).is_live() && (#[trigger] blocks[j]).is_live()
            ==> blocks[i].end() <= blocks[j].index || blocks[j].end() <= blocks[i].index
}

/// The blocks come in ascending order of their offsets.
pub open spec fn ascending(blocks: Seq<Slot>) -> bool {
    forall|i: int, j: int|
        0 <= i < j < blocks.len() ==> (#[trigger] blocks[i]).index <= (#[trigger] blocks[j]).index
}

/// Every record of `blocks` is a live block.
pub open spec fn all_live(blocks: Seq<Slot>) -> bool {
    forall|i: int| 0 <= i < blocks.len() ==> (#[trigger] blocks[i]).is_live()
}

/// Byte `p` belongs to a live block of `blocks`.
pub open spec fn occupied(blocks: Seq<Slot>, p: int) -> bool {
    exists|k: int| 0 <= k < blocks.len() && (#[trigger] blocks[k]).holds(p)
}

/// The range `[offset, offset + size)` lies inside an arena of `capacity`
/// bytes and shares no byte with a live block of `blocks`.
pub open spec fn fits(blocks: Seq<Slot>, capacity: int, offset: int, size: int) -> bool {
    &&& 0 <= offset
    &&& offset + size <= capacity
    &&& forall|i: int|
        0 <= i < blocks.len() && (#[trigger] blocks[i]).is_live() ==> blocks[i].clear_of(offset, size)
}

/// `offset` is the lowest offset at which `size` bytes fit.
pub open spec fn is_lowest_fit(blocks: Seq<Slot>, capacity: int, offset: int, size: int) -> bool {
    &&& fits(blocks, capacity, offset, size)
    &&& forall|p: int| 0 <= p < offset ==> !fits(blocks, capacity, p, size)
}

/// The lowest offset at which `size` bytes fit, if there is any.
pub open spec fn lowest_fit(blocks: Seq<Slot>, capacity: int, size: int) -> Option<int> {
    if exists|o: int| is_lowest_fit(blocks, capacity, o, size) {
        Some(choose|o: int| is_lowest_fit(blocks, capacity, o, size))
    } else {
        None
    }
}

/// The live blocks of `blocks`, in table order.
pub open spec fn live_blocks(blocks: Seq<Slot>) -> Seq<Slot> {
    blocks.filter(|s: Slot| s.is_live())
}

/// The bytes that the live blocks of `blocks` occupy together. An empty record
/// has size 0 and adds nothing.
pub open spec fn live_bytes(blocks: Seq<Slot>) -> nat
    decreases blocks.len(),
{
    if blocks.len() == 0 {
        0
    } else {
        live_bytes(blocks.drop_last()) + blocks.last().size as nat
    }
}

/// Replacing one record changes the occupied bytes by the difference of the
/// two sizes.
pub proof fn lemma_live_bytes_update(blocks: Seq<Slot>, i: int, block: Slot)
    requires
        0 <= i < blocks.len(),
    ensures
        live_bytes(blocks.update(i, block)) == live_bytes(blocks) - blocks[i].size + block.size,
    decreases blocks.len(),
{
    let after = blocks.update(i, block);
    if i == blocks.len() - 1 {
        assert(after.drop_last() =~= blocks.drop_last());
    } else {
        assert(after.drop_last() =~= blocks.drop_last().update(i, block));
        lemma_live_bytes_update(blocks.drop_last(), i, block);
    }
}

/// No record is larger than the bytes that the whole table occupies.
pub proof fn lemma_live_bytes_bound(blocks: Seq<Slot>, i: int)
    requires
        0 <= i < blocks.len(),
    ensures
        blocks[i].size <= live_bytes(blocks),
    decreases blocks.len(),
{
    if i < blocks.len() - 1 {
        lemma_live_bytes_bound(blocks.drop_last(), i);
    }
}

/// A table without live blocks occupies no byte.
pub proof fn lemma_live_bytes_of_empty(blocks: Seq<Slot>)
    requires
        forall|i: int| 0 <= i < blocks.len() ==> !(#[trigger] blocks[i]).is_live(),
    ensures
        live_bytes(blocks) == 0,
    decreases blocks.len(),
{
    if blocks.len() > 0 {
        assert(!blocks[blocks.len() - 1].is_live());
        lemma_live_bytes_of_empty(blocks.drop_last());
    }
}

/// The number of live blocks of `blocks`.
pub open spec fn live_count(blocks: Seq<Slot>) -> nat
    decreases blocks.len(),
{
    if blocks.len() == 0 {
        0
    } else {
        live_count(blocks.drop_last()) + if blocks.last().is_live() {
            1nat
        } else {
            0nat
        }
    }
}

/// Replacing one record changes the number of live blocks by what the two
/// records count.
pub proof fn lemma_live_count_update(blocks: Seq<Slot>, i: int, block: Slot)
    requires
        0 <= i < blocks.len(),
    ensures
        live_count(blocks.update(i, block)) == live_count(blocks) - (if blocks[i].is_live() {
            1int
        } else {
            0int
        }) + (if block.is_live() {
            1int
        } else {
            0int
        }),
    decreases blocks.len(),
{
    let after = blocks.update(i, block);
    if i == blocks.len() - 1 {
        assert(after.drop_last() =~= blocks.drop_last());
    } else {
        assert(after.drop_last() =~= blocks.drop_last().update(i, block));
        lemma_live_count_update(blocks.drop_last(), i, block);
    }
}

/// A table counts at most as many live blocks as it has slots, and exactly as
/// many where every slot holds one.
pub proof fn lemma_live_count_bound(blocks: Seq<Slot>)
    ensures
        live_count(blocks) <= blocks.len(),
        all_live(blocks) ==> live_count(blocks) == blocks.len(),
        live_count(blocks) == blocks.len() ==> all_live(blocks),
    decreases blocks.len(),
{
    if blocks.len() > 0 {
        lemma_live_count_bound(blocks.drop_last());
        if all_live(blocks) {
            assert forall|k: int| 0 <= k < blocks.drop_last().len() implies (#[trigger] blocks.drop_last()[k]).is_live() by {
                assert(blocks[k].is_live());
            }
            assert(blocks[blocks.len() - 1].is_live());
        }
        if live_count(blocks) == blocks.len() {
            assert forall|k: int| 0 <= k < blocks.len() implies (#[trigger] blocks[k]).is_live() by {
                if k < blocks.len() - 1 {
                    assert(blocks.drop_last()[k].is_live());
                }
            }
        }
    }
}

/// The number of live blocks is the length of the sequence of live blocks.
pub proof fn lemma_live_count_is_len(blocks: Seq<Slot>)
    ensures
        live_count(blocks) == live_blocks(blocks).len(),
    decreases blocks.len(),
{
    let alive = |s: Slot| s.is_live();
    if blocks.len() == 0 {
        blocks.lemma_filter_len(alive);
    } else {
        let rest = blocks.drop_last();
        assert(rest.push(blocks.last()) =~= blocks);
        rest.lemma_filter_push(blocks.last(), alive);
        lemma_live_count_is_len(rest);
    }
}

/// Two lowest fits of the same request are the same offset.
pub proof fn lemma_lowest_fit_unique(blocks: Seq<Slot>, capacity: int, a: int, b: int, size: int)
    requires
        is_lowest_fit(blocks, capacity, a, size),
        is_lowest_fit(blocks, capacity, b, size),
    ensures
        a == b,
{
}

/// A lowest fit is what `lowest_fit` names.
pub proof fn lemma_lowest_fit_is(blocks: Seq<Slot>, capacity: int, o: int, size: int)
    requires
        is_lowest_fit(blocks, capacity, o, size),
    ensures
        lowest_fit(blocks, capacity, size) == Some(o),
{
    let c = choose|c: int| is_lowest_fit(blocks, capacity, c, size);
    lemma_lowest_fit_unique(blocks, capacity, o, c, size);
}

/// Where some offset fits, a lowest one does.
pub proof fn lemma_lowest_fit_exists(blocks: Seq<Slot>, capacity: int, o: int, size: int)
    requires
        fits(blocks, capacity, o, size),
    ensures
        lowest_fit(blocks, capacity, size) is Some,
        lowest_fit(blocks, capacity, size)->0 <= o,
    decreases o,
{
    if forall|p: int| 0 <= p < o ==> !fits(blocks, capacity, p, size) {
        lemma_lowest_fit_is(blocks, capacity, o, size);
    } else {
        let p = choose|p: int| 0 <= p < o && fits(blocks, capacity, p, size);
        lemma_lowest_fit_exists(blocks, capacity, p, size);
    }
}

/// No offset fits exactly when `lowest_fit` names none.
pub proof fn lemma_no_fit(blocks: Seq<Slot>, capacity: int, size: int)
    ensures
        lowest_fit(blocks, capacity, size) is None <==> forall|o: int| !fits(blocks, capacity, o, size),
{
    if lowest_fit(blocks, capacity, size) is None {
        assert forall|o: int| !fits(blocks, capacity, o, size) by {
            if fits(blocks, capacity, o, size) {
                lemma_lowest_fit_exists(blocks, capacity, o, size);
            }
        }
    }
}

/// What `lowest_fit` names is a lowest fit.
pub proof fn lemma_lowest_fit_some(blocks: Seq<Slot>, capacity: int, size: int)
    requires
        lowest_fit(blocks, capacity, size) is Some,
    ensures
        is_lowest_fit(blocks, capacity, lowest_fit(blocks, capacity, size)->0, size),
{
}

/// A sorted copy of the live blocks of a well-laid-out table is as well laid
/// out as the table, and leaves room for the same requests.
pub proof fn lemma_snapshot_layout(slots: Seq<Slot>, snap: Seq<Slot>, capacity: int)
    requires
        within(slots, capacity),
        pairwise_disjoint(slots),
        snap.to_multiset() == live_blocks(slots).to_multiset(),
    ensures
        all_live(snap),
        within(snap, capacity),
        pairwise_disjoint(snap),
        forall|offset: int, size: int|
            fits(snap, capacity, offset, size) <==> fits(slots, capacity, offset, size),
{
    let live = live_blocks(slots);
    let alive = |s: Slot| s.is_live();
    assert forall|k: int| 0 <= k < snap.len() implies slots.contains(#[trigger] snap[k])
        && snap[k].is_live() by {
        assert(snap.contains(snap[k]));
        to_multiset_contains(snap, snap[k]);
        to_multiset_contains(live, snap[k]);
        slots.lemma_filter_contains_rev(alive, snap[k]);
        let m = choose|m: int| 0 <= m < live.len() && live[m] == snap[k];
        slots.lemma_filter_pred(alive, m);
    }
    assert forall|i: int| 0 <= i < slots.len() && (#[trigger] slots[i]).is_live() implies snap.contains(
        slots[i],
    ) by {
        slots.lemma_filter_contains(alive, i);
        to_multiset_contains(live, slots[i]);
        to_multiset_contains(snap, slots[i]);
    }
    assert forall|a: int, b: int|
        0 <= a < b < snap.len() && (#[trigger] snap[a]).is_live() && (#[trigger] snap[b]).is_live() implies snap[a].end()
        <= snap[b].index || snap[b].end() <= snap[a].index by {
        lemma_live_blocks_distinct(slots);
        snap.lemma_multiset_has_no_duplicates_conv();
        assert(snap[a] != snap[b]);
        let i = choose|i: int| 0 <= i < slots.len() && slots[i] == snap[a];
        let j = choose|j: int| 0 <= j < slots.len() && slots[j] == snap[b];
        assert(slots[i].is_live() && slots[j].is_live());
    }
    assert forall|k: int| 0 <= k < snap.len() && (#[trigger] snap[k]).is_live() implies snap[k].end()
        <= capacity by {
        let i = choose|i: int| 0 <= i < slots.len() && slots[i] == snap[k];
        assert(slots[i].is_live());
    }
    assert forall|offset: int, size: int|
        fits(snap, capacity, offset, size) <==> fits(slots, capacity, offset, size) by {
        if fits(snap, capacity, offset, size) {
            assert forall|i: int| 0 <= i < slots.len() && (#[trigger] slots[i]).is_live() implies slots[i].clear_of(
                offset,
                size,
            ) by {
                let k = choose|k: int| 0 <= k < snap.len() && snap[k] == slots[i];
                assert(snap[k].is_live());
            }
        }
        if fits(slots, capacity, offset, size) {
            assert forall|k: int| 0 <= k < snap.len() && (#[trigger] snap[k]).is_live() implies snap[k].clear_of(
                offset,
                size,
            ) by {
                let i = choose|i: int| 0 <= i < slots.len() && slots[i] == snap[k];
                assert(slots[i].is_live());
            }
        }
    }
}

/// Among the live blocks of a table whose live blocks share no byte, none
/// occurs twice.
pub proof fn lemma_live_blocks_distinct(slots: Seq<Slot>)
    requires
        pairwise_disjoint(slots),
    ensures
        forall|x: Slot|
            live_blocks(slots).to_multiset().contains(x) ==> live_blocks(slots).to_multiset().count(x)
                == 1,
    decreases slots.len(),
{
    broadcast use vstd::multiset::group_multiset_axioms;

    let alive = |s: Slot| s.is_live();
    if slots.len() == 0 {
        assert(live_blocks(slots).len() == 0) by {
            slots.lemma_filter_len(alive);
        }
        live_blocks(slots).to_multiset_ensures();
        assert forall|x: Slot| live_blocks(slots).to_multiset().contains(x) implies false by {
            to_multiset_contains(live_blocks(slots), x);
        }
    } else {
        let rest = slots.drop_last();
        let last = slots.last();
        assert(rest.push(last) =~= slots);
        rest.lemma_filter_push(last, alive);
        assert(pairwise_disjoint(rest)) by {
            assert forall|i: int, j: int|
                0 <= i < j < rest.len() && (#[trigger] rest[i]).is_live() && (#[trigger] rest[j]).is_live() implies rest[i].end()
                <= rest[j].index || rest[j].end() <= rest[i].index by {
                assert(slots[i].is_live() && slots[j].is_live());
            }
        }
        lemma_live_blocks_distinct(rest);
        if last.is_live() {
            to_multiset_build(live_blocks(rest), last);
            to_multiset_contains(live_blocks(rest), last);
            if live_blocks(rest).contains(last) {
                rest.lemma_filter_contains_rev(alive, last);
                let i = choose|i: int| 0 <= i < rest.len() && rest[i] == last;
                assert(slots[i].is_live() && slots[slots.len() - 1].is_live());
            }
        }
    }
}

} // verus!
