use vstd::prelude::*;

verus! {

/// `i` is the lowest index of `s` whose entry satisfies `p`.
pub open spec fn is_first_index<T>(s: Seq<T>, p: spec_fn(T) -> bool, i: int) -> bool {
    &&& 0 <= i < s.len()
    &&& p(s[i])
    &&& forall|k: int| 0 <= k < i ==> !p(#[trigger] s[k])
}

/// The lowest index of `s` whose entry satisfies `p`, if there is any.
pub open spec fn first_index<T>(s: Seq<T>, p: spec_fn(T) -> bool) -> Option<int> {
    if exists|i: int| is_first_index(s, p, i) {
        Some(choose|i: int| is_first_index(s, p, i))
    } else {
        None
    }
}

/// A lowest index is what `first_index` names.
pub proof fn lemma_first_index_is<T>(s: Seq<T>, p: spec_fn(T) -> bool, i: int)
    requires
        is_first_index(s, p, i),
    ensures
        first_index(s, p) == Some(i),
{
    let c = choose|c: int| is_first_index(s, p, c);
    assert(is_first_index(s, p, c));
    if c < i {
        assert(!p(s[c]));
    } else if i < c {
        assert(!p(s[i]));
    }
}

/// Below an index whose entry satisfies `p` lies a lowest such index, or it is
/// that index itself.
pub proof fn lemma_first_index_exists<T>(s: Seq<T>, p: spec_fn(T) -> bool, i: int)
    requires
        0 <= i < s.len(),
        p(s[i]),
    ensures
        first_index(s, p) is Some,
        first_index(s, p)->0 <= i,
    decreases i,
{
    if forall|k: int| 0 <= k < i ==> !p(#[trigger] s[k]) {
        lemma_first_index_is(s, p, i);
    } else {
        let k = choose|k: int| 0 <= k < i && p(#[trigger] s[k]);
        lemma_first_index_exists(s, p, k);
    }
}

/// `first_index` names none exactly when no entry satisfies `p`.
pub proof fn lemma_first_index_none<T>(s: Seq<T>, p: spec_fn(T) -> bool)
    ensures
        first_index(s, p) is None <==> forall|k: int| 0 <= k < s.len() ==> !p(#[trigger] s[k]),
{
    if first_index(s, p) is None {
        assert forall|k: int| 0 <= k < s.len() implies !p(#[trigger] s[k]) by {
            if p(s[k]) {
                lemma_first_index_exists(s, p, k);
            }
        }
    } else {
        let c = first_index(s, p)->0;
        assert(is_first_index(s, p, c));
        assert(p(s[c]));
    }
}

} // verus!
