//! Strictly increasing sequences of integers and membership in them.

use vstd::prelude::*;

verus! {

/// The sequence is strictly increasing: sorted and without duplicates.
pub open spec fn increasing(s: Seq<usize>) -> bool {
    forall|i: int, j: int| 0 <= i < j < s.len() ==> s[i] < s[j]
}

/// No member of the sequence is zero.
pub open spec fn positive(s: Seq<usize>) -> bool {
    forall|i: int| 0 <= i < s.len() ==> #[trigger] s[i] > 0
}

/// The number of elements of `s` that are smaller than `x`.
///
/// In an increasing sequence this is the index at which `x` stands if it occurs,
/// and the index at which it would have to be inserted otherwise.
pub open spec fn rank(s: Seq<usize>, x: int) -> nat
    decreases s.len(),
{
    if s.len() == 0 {
        0
    } else {
        rank(s.drop_last(), x) + if s.last() < x {
            1nat
        } else {
            0nat
        }
    }
}

/// In an increasing sequence the elements smaller than `x` are exactly the first
/// `rank(s, x)` ones.
pub proof fn lemma_rank_splits(s: Seq<usize>, x: int)
    requires
        increasing(s),
    ensures
        rank(s, x) <= s.len(),
        forall|i: int| 0 <= i < rank(s, x) ==> s[i] < x,
        forall|i: int| rank(s, x) <= i < s.len() ==> s[i] >= x,
    decreases s.len(),
{
    if s.len() > 0 {
        let t = s.drop_last();
        lemma_rank_splits(t, x);
        assert forall|i: int| 0 <= i < t.len() implies t[i] == s[i] by {}
        assert(increasing(t));
        if s.last() < x {
            assert forall|i: int| 0 <= i < s.len() implies s[i] < x by {
                if i < s.len() - 1 {
                    assert(s[i] < s[s.len() - 1]);
                }
            }
            if rank(t, x) < t.len() {
                assert(t[rank(t, x) as int] >= x);
                assert(s[rank(t, x) as int] < x);
            }
        } else {
            assert forall|i: int| 0 <= i < rank(s, x) implies s[i] < x by {
                assert(t[i] < x);
            }
            assert forall|i: int| rank(s, x) <= i < s.len() implies s[i] >= x by {
                if i < s.len() - 1 {
                    assert(t[i] >= x);
                }
            }
        }
    }
}

/// An index that splits an increasing sequence into the elements below `x` and the
/// others is the rank of `x`.
pub proof fn lemma_rank_unique(s: Seq<usize>, x: int, r: int)
    requires
        increasing(s),
        0 <= r <= s.len(),
        forall|i: int| 0 <= i < r ==> s[i] < x,
        forall|i: int| r <= i < s.len() ==> s[i] >= x,
    ensures
        rank(s, x) == r,
{
    lemma_rank_splits(s, x);
    let k = rank(s, x) as int;
    if k < r {
        assert(s[k] < x);
    }
    if r < k {
        assert(s[r] >= x);
    }
}

/// `x` occurs in an increasing sequence exactly if it stands at its rank.
pub proof fn lemma_contains_at_rank(s: Seq<usize>, x: usize)
    requires
        increasing(s),
    ensures
        s.contains(x) <==> rank(s, x as int) < s.len() && s[rank(s, x as int) as int] == x,
{
    lemma_rank_splits(s, x as int);
    let r = rank(s, x as int) as int;
    if s.contains(x) {
        let i = choose|i: int| 0 <= i < s.len() && s[i] == x;
        if i < r {
            assert(s[i] < x);
        }
        if i > r {
            assert(s[r] < s[i]);
        }
    }
}

/// Finds by bisection the number of elements of `seq` that are smaller than `x`.
pub fn lower_bound(seq: &[usize], x: usize) -> (r: usize)
    requires
        increasing(seq@),
    ensures
        r == rank(seq@, x as int),
        r <= seq@.len(),
        forall|i: int| 0 <= i < r ==> seq@[i] < x,
        forall|i: int| r <= i < seq@.len() ==> seq@[i] >= x,
{
    let mut lo: usize = 0;
    let mut hi: usize = seq.len();
    while lo < hi
        invariant
            increasing(seq@),
            lo <= hi <= seq@.len(),
            forall|i: int| 0 <= i < lo ==> seq@[i] < x,
            forall|i: int| hi <= i < seq@.len() ==> seq@[i] >= x,
        decreases hi - lo,
    {
        let mid: usize = lo + (hi - lo) / 2;
        if seq[mid] < x {
            assert forall|i: int| 0 <= i < mid + 1 implies seq@[i] < x by {
                if i < mid {
                    assert(seq@[i] < seq@[mid as int]);
                }
            }
            lo = mid + 1;
        } else {
            assert forall|i: int| mid <= i < seq@.len() implies seq@[i] >= x by {
                if mid < i {
                    assert(seq@[mid as int] < seq@[i]);
                }
            }
            hi = mid;
        }
    }
    proof {
        lemma_rank_unique(seq@, x as int, lo as int);
    }
    lo
}

/// Tells whether `x` occurs in the increasing sequence `seq`.
pub fn contains(seq: &[usize], x: usize) -> (found: bool)
    requires
        increasing(seq@),
    ensures
        found == seq@.contains(x),
{
    let r = lower_bound(seq, x);
    proof {
        lemma_contains_at_rank(seq@, x);
    }
    r < seq.len() && seq[r] == x
}

} // verus!
