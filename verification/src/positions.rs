//! Sorted token positions for the leaf terms of a span query.
use vstd::prelude::*;

verus! {

/// Provides sorted token positions for the leaf terms of a span query.
///
/// `Term(i)` leaves reference the position list at index `i`.
pub trait TermPositions {
    /// Number of position lists available.
    spec fn list_count(&self) -> nat;

    /// The position list of term `i`.
    spec fn list(&self, i: int) -> Seq<u32>;

    /// Returns the positions for the term at `term_index`.
    fn positions(&self, term_index: usize) -> (r: &[u32])
        requires
            term_index < self.list_count(),
        ensures
            r@ == self.list(term_index as int),
    ;
}

impl TermPositions for Vec<Vec<u32>> {
    open spec fn list_count(&self) -> nat {
        self@.len()
    }

    open spec fn list(&self, i: int) -> Seq<u32> {
        self@[i]@
    }

    fn positions(&self, term_index: usize) -> (r: &[u32]) {
        self[term_index].as_slice()
    }
}

impl<const N: usize> TermPositions for [Vec<u32>; N] {
    open spec fn list_count(&self) -> nat {
        N as nat
    }

    open spec fn list(&self, i: int) -> Seq<u32> {
        self@[i]@
    }

    fn positions(&self, term_index: usize) -> (r: &[u32]) {
        self[term_index].as_slice()
    }
}

/// `s` is sorted in ascending order.
pub open spec fn sorted(s: Seq<u32>) -> bool {
    forall|i: int, j: int| 0 <= i <= j < s.len() ==> s[i] <= s[j]
}

/// The first `n` position lists are available, sorted ascending, and hold
/// only positions below `u32::MAX` (so every interval over them has a
/// width that fits in `u32`).
pub open spec fn positions_ok<P: TermPositions>(p: &P, n: nat) -> bool {
    &&& n <= p.list_count()
    &&& forall|i: int| 0 <= i < n ==> #[trigger] sorted(p.list(i))
    &&& forall|i: int, k: int| 0 <= i < n && 0 <= k < p.list(i).len() ==> #[trigger] p.list(i)[k] < u32::MAX
}

/// Whether the sorted list holds `target`, by binary search.
pub fn sorted_contains(list: &[u32], target: u32) -> (r: bool)
    requires
        sorted(list@),
    ensures
        r == list@.contains(target),
{
    let mut lo: usize = 0;
    let mut hi: usize = list.len();
    while lo < hi
        invariant
            lo <= hi <= list@.len(),
            sorted(list@),
            forall|k: int| 0 <= k < lo ==> list@[k] < target,
            forall|k: int| hi <= k < list@.len() ==> list@[k] > target,
        decreases hi - lo,
    {
        let mid = lo + (hi - lo) / 2;
        let v = list[mid];
        if v == target {
            assert(list@[mid as int] == target);
            return true;
        } else if v < target {
            lo = mid + 1;
        } else {
            hi = mid;
        }
    }
    proof {
        if list@.contains(target) {
            let k = choose|k: int| 0 <= k < list@.len() && list@[k] == target;
            assert(list@[k] == target);
        }
    }
    false
}

/// `s` is strictly increasing: sorted, with no position twice.
pub open spec fn strictly_sorted(s: Seq<u32>) -> bool {
    forall|i: int, j: int| 0 <= i < j < s.len() ==> s[i] < s[j]
}

/// Every one of the first `n` position lists holds each position once.
pub open spec fn strict_positions<P: TermPositions>(p: &P, n: nat) -> bool {
    forall|i: int| 0 <= i < n ==> #[trigger] strictly_sorted(p.list(i))
}

} // verus!
