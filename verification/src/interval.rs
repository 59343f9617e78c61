//! Inclusive token-position intervals.
use vstd::prelude::*;

verus! {

/// A positional match: the contiguous region `[start, end]` of a document's
/// token stream. Both bounds are inclusive, 0-indexed token positions.
#[derive(Clone, Copy, Debug, PartialEq, Eq, PartialOrd, Ord, Structural)]
pub struct Interval {
    pub start: u32,
    pub end: u32,
}

/// An interval is well formed when it does not end before it starts.
pub open spec fn wf_interval(iv: Interval) -> bool {
    iv.start <= iv.end
}

/// Width of an interval as a mathematical integer.
pub open spec fn spec_width(iv: Interval) -> int {
    iv.end - iv.start + 1
}

/// `a` covers every position of `b`.
pub open spec fn spec_contains(a: Interval, b: Interval) -> bool {
    a.start <= b.start && a.end >= b.end
}

/// `a` and `b` share at least one position.
pub open spec fn spec_overlaps(a: Interval, b: Interval) -> bool {
    a.start <= b.end && b.start <= a.end
}

/// The natural order: by start, then by end.
pub open spec fn interval_le(a: Interval, b: Interval) -> bool {
    a.start < b.start || (a.start == b.start && a.end <= b.end)
}

impl Interval {
    /// The interval `[start, end]`.
    pub fn new(start: u32, end: u32) -> (r: Self)
        requires
            start <= end,
        ensures
            r.start == start,
            r.end == end,
    {
        Interval { start, end }
    }

    /// Single-position interval `[pos, pos]`.
    pub fn point(pos: u32) -> (r: Self)
        ensures
            r.start == pos,
            r.end == pos,
    {
        Interval { start: pos, end: pos }
    }

    /// Number of token positions spanned (inclusive).
    pub fn width(self) -> (r: u32)
        requires
            wf_interval(self),
            spec_width(self) <= u32::MAX,
        ensures
            r == spec_width(self),
    {
        self.end - self.start + 1
    }

    /// True if `self` fully contains `other`.
    pub fn contains(self, other: Interval) -> (r: bool)
        ensures
            r == spec_contains(self, other),
    {
        self.start <= other.start && self.end >= other.end
    }

    /// True if `self` and `other` share at least one position.
    pub fn overlaps(self, other: Interval) -> (r: bool)
        ensures
            r == spec_overlaps(self, other),
    {
        self.start <= other.end && other.start <= self.end
    }

    /// True if every position in `self` is strictly before every position in `other`.
    pub fn strictly_before(self, other: Interval) -> (r: bool)
        ensures
            r == (self.end < other.start),
    {
        self.end < other.start
    }

    /// Whether `self` sorts no later than `other` in the natural order
    /// (by start position, then by end position).
    pub fn sorts_before_or_equal(self, other: Interval) -> (r: bool)
        ensures
            r == interval_le(self, other),
    {
        self.start < other.start || (self.start == other.start && self.end <= other.end)
    }
}

/// The natural order is total: every two intervals are comparable.
pub proof fn lemma_order_total(a: Interval, b: Interval)
    ensures
        interval_le(a, b) || interval_le(b, a),
        interval_le(a, b) && interval_le(b, a) ==> a == b,
{
}

/// The natural order is transitive.
pub proof fn lemma_order_transitive(a: Interval, b: Interval, c: Interval)
    requires
        interval_le(a, b),
        interval_le(b, c),
    ensures
        interval_le(a, c),
{
}

/// Containment is reflexive and implies overlap between well-formed intervals.
pub proof fn lemma_contains_implies_overlap(a: Interval, b: Interval)
    requires
        wf_interval(b),
    ensures
        spec_contains(a, a),
        spec_contains(a, b) ==> spec_overlaps(a, b),
{
}

/// An interval strictly before another never overlaps it.
pub proof fn lemma_strictly_before_disjoint(a: Interval, b: Interval)
    requires
        a.end < b.start,
    ensures
        !spec_overlaps(a, b),
        !spec_overlaps(b, a),
{
}

} // verus!
