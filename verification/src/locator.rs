use vstd::prelude::*;
use vstd::seq_lib::*;
use crate::slot::{Slot, empty_slot};
use crate::layout::{all_live, ascending, fits, is_lowest_fit, live_blocks, pairwise_disjoint, within};

verus! {

/// Exchanging two entries of a sequence keeps its multiset of entries.
pub proof fn lemma_swap_keeps_multiset(s: Seq<Slot>, a: int, b: int)
    requires
        0 <= a < s.len(),
        0 <= b < s.len(),
    ensures
        s.update(a, s[b]).update(b, s[a]).to_multiset() == s.to_multiset(),
{
    broadcast use vstd::multiset::group_multiset_axioms;

    let t = s.update(a, s[b]);
    to_multiset_update(s, a, s[b]);
    to_multiset_update(t, b, s[a]);
    to_multiset_contains(s, s[a]);
    to_multiset_contains(s, s[b]);
    assert(s.contains(s[a]));
    assert(s.contains(s[b]));
    assert(t.update(b, s[a]).to_multiset() =~= s.to_multiset());
}

/// In an ascending sequence of disjoint live blocks each block ends before the
/// next one starts.
pub proof fn lemma_ascending_ends(b: Seq<Slot>, i: int, j: int)
    requires
        all_live(b),
        ascending(b),
        pairwise_disjoint(b),
        0 <= i < j < b.len(),
    ensures
        b[i].end() <= b[j].index,
{
}

/// Copies the live blocks of a table to the front of a fresh array, in table
/// order, and counts them. The entries behind them are empty records.
pub fn collect_live<const N: usize>(slots: &[Slot; N]) -> (r: ([Slot; N], usize))
    ensures
        r.1 <= N,
        r.0@.take(r.1 as int) == live_blocks(slots@),
        forall|k: int| r.1 <= k < N ==> r.0@[k] == empty_slot(),
{
    let mut out = [Slot { size: 0, index: 0 }; N];
    let mut count: usize = 0;
    let mut i: usize = 0;
    proof {
        assert(slots@.take(0) =~= Seq::<Slot>::empty());
        assert(out@.take(0) =~= live_blocks(slots@.take(0)));
    }
    while i < N
        invariant
            i <= N,
            count <= i,
            out@.take(count as int) == live_blocks(slots@.take(i as int)),
            forall|k: int| count <= k < N ==> out@[k] == empty_slot(),
        decreases N - i,
    {
        let s = slots[i];
        proof {
            let seen = slots@.take(i as int);
            assert(slots@.take(i + 1) =~= seen.push(s));
            seen.lemma_filter_push(s, |s: Slot| s.is_live());
        }
        if s.size > 0 {
            out[count] = s;
            proof {
                assert(out@.take(count + 1) =~= live_blocks(slots@.take(i as int)).push(s));
            }
            count += 1;
        }
        i += 1;
    }
    proof {
        assert(slots@.take(N as int) =~= slots@);
    }
    (out, count)
}

/// Sorts the first `count` entries of `blocks` by ascending offset and leaves
/// the rest alone.
pub fn sort_by_index<const N: usize>(blocks: &mut [Slot; N], count: usize)
    requires
        count <= N,
    ensures
        ascending(final(blocks)@.take(count as int)),
        final(blocks)@.take(count as int).to_multiset() == old(blocks)@.take(
            count as int,
        ).to_multiset(),
        forall|k: int| count <= k < N ==> final(blocks)@[k] == old(blocks)@[k],
{
    let mut i: usize = 0;
    while i < count
        invariant
            i <= count <= N,
            blocks@.take(count as int).to_multiset() == old(blocks)@.take(count as int).to_multiset(),
            forall|k: int| count <= k < N ==> blocks@[k] == old(blocks)@[k],
            forall|a: int, b: int|
                count - i <= a < b < count ==> (#[trigger] blocks@[a]).index <= (
                #[trigger] blocks@[b]).index,
            forall|a: int, b: int|
                0 <= a < count - i <= b < count ==> (#[trigger] blocks@[a]).index <= (
                #[trigger] blocks@[b]).index,
        decreases count - i,
    {
        let mut j: usize = 0;
        while j + 1 + i < count
            invariant
                i < count <= N,
                j + i < count,
                blocks@.take(count as int).to_multiset() == old(blocks)@.take(
                    count as int,
                ).to_multiset(),
                forall|k: int| count <= k < N ==> blocks@[k] == old(blocks)@[k],
                forall|a: int, b: int|
                    count - i <= a < b < count ==> (#[trigger] blocks@[a]).index <= (
                    #[trigger] blocks@[b]).index,
                forall|a: int, b: int|
                    0 <= a < count - i <= b < count ==> (#[trigger] blocks@[a]).index <= (
                    #[trigger] blocks@[b]).index,
                forall|a: int| 0 <= a <= j ==> (#[trigger] blocks@[a]).index <= blocks@[j as int].index,
            decreases count - i - j,
        {
            if blocks[j].index > blocks[j + 1].index {
                let ghost before = blocks@;
                let lower = blocks[j + 1];
                let upper = blocks[j];
                blocks[j] = lower;
                blocks[j + 1] = upper;
                proof {
                    let prefix = before.take(count as int);
                    lemma_swap_keeps_multiset(prefix, j as int, j + 1);
                    assert(blocks@.take(count as int) =~= prefix.update(j as int, prefix[j + 1]).update(
                        j + 1,
                        prefix[j as int],
                    ));
                }
            }
            j += 1;
        }
        i += 1;
    }
}

/// Scans the gaps around `count` sorted live blocks for the lowest offset at
/// which `size` bytes fit into an arena of `capacity` bytes: before the first
/// block, between neighbours, then behind the last block.
pub fn lowest_gap<const N: usize>(
    blocks: &[Slot; N],
    count: usize,
    capacity: usize,
    size: usize,
) -> (r: Option<usize>)
    requires
        count <= N,
        all_live(blocks@.take(count as int)),
        ascending(blocks@.take(count as int)),
        pairwise_disjoint(blocks@.take(count as int)),
        within(blocks@.take(count as int), capacity as int),
    ensures
        match r {
            Some(o) => is_lowest_fit(blocks@.take(count as int), capacity as int, o as int, size as int),
            None => forall|p: int| !fits(blocks@.take(count as int), capacity as int, p, size as int),
        },
{
    let ghost b = blocks@.take(count as int);
    if count == 0 {
        return if size <= capacity {
            Some(0)
        } else {
            None
        };
    }
    if blocks[0].index >= size {
        assert forall|k: int| 0 <= k < b.len() implies (#[trigger] b[k]).clear_of(0, size as int) by {
            if k > 0 {
                assert(b[0].index <= b[k].index);
            }
        }
        assert(b[0].is_live());
        return Some(0);
    }
    assert forall|p: int| 0 <= p < b[0].end() implies !fits(b, capacity as int, p, size as int) by {
        assert(b[0].is_live() && !b[0].clear_of(p, size as int));
    }
    let mut i: usize = 0;
    while i + 1 < count
        invariant
            0 < count <= N,
            i < count,
            b == blocks@.take(count as int),
            all_live(b),
            ascending(b),
            pairwise_disjoint(b),
            within(b, capacity as int),
            forall|p: int| 0 <= p < b[i as int].end() ==> !fits(b, capacity as int, p, size as int),
        decreases count - i,
    {
        let this_block = blocks[i];
        let next_block = blocks[i + 1];
        proof {
            assert(b[i as int].is_live() && b[i + 1].is_live());
            lemma_ascending_ends(b, i as int, i + 1);
        }
        let end_this = this_block.index + this_block.size;
        let gap = next_block.index - end_this;
        if gap >= size {
            assert forall|k: int| 0 <= k < b.len() implies (#[trigger] b[k]).clear_of(
                end_this as int,
                size as int,
            ) by {
                if k < i {
                    lemma_ascending_ends(b, k, i as int);
                } else if k > i + 1 {
                    assert(b[i + 1].index <= b[k].index);
                }
            }
            return Some(end_this);
        }
        assert forall|p: int| 0 <= p < b[i + 1].end() implies !fits(
            b,
            capacity as int,
            p,
            size as int,
        ) by {
            if p >= b[i as int].end() {
                assert(b[i + 1].is_live() && !b[i + 1].clear_of(p, size as int));
            }
        }
        i += 1;
    }
    let last_block = blocks[count - 1];
    proof {
        assert(b[count - 1].is_live());
    }
    let end_last = last_block.index + last_block.size;
    let space_after = capacity - end_last;
    if space_after >= size {
        assert forall|k: int| 0 <= k < b.len() implies (#[trigger] b[k]).clear_of(
            end_last as int,
            size as int,
        ) by {
            if k < count - 1 {
                lemma_ascending_ends(b, k, count - 1);
            }
        }
        Some(end_last)
    } else {
        None
    }
}

} // verus!
