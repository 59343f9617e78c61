//! Lazy minimal-interval evaluation of span queries: one state machine per
//! operator node, each yielding its intervals one at a time.
use vstd::prelude::*;
use crate::interval::{Interval, spec_width, spec_contains, spec_overlaps};
use crate::positions::{TermPositions, positions_ok, sorted, sorted_contains, strictly_sorted, strict_positions};
use crate::query::{SpanQuery, SpanTree, tree_of, trees_of, query_valid, all_valid, lemma_trees_of_index};
use std::collections::VecDeque;

verus! {

/// An interval the evaluator may produce: well formed, and ending below
/// `u32::MAX` so that its width fits in `u32`.
pub open spec fn ok_iv(iv: Interval) -> bool {
    iv.start <= iv.end && iv.end < u32::MAX
}

/// `a` is no later than `b` in both coordinates.
pub open spec fn le2(a: Interval, b: Interval) -> bool {
    a.start <= b.start && a.end <= b.end
}

/// When `strict` holds and an interval was produced, it starts after `floor`.
pub open spec fn starts_after(strict: bool, floor: Interval, r: Option<Interval>) -> bool {
    strict && r is Some ==> floor.start < r->0.start
}

/// When `strict` holds and an interval was produced, it ends after `floor`.
pub open spec fn ends_after(strict: bool, floor: Interval, r: Option<Interval>) -> bool {
    strict && r is Some ==> floor.end < r->0.end
}

/// `a` is strictly earlier than `b` in both coordinates.
pub open spec fn lt2(a: Interval, b: Interval) -> bool {
    a.start < b.start && a.end < b.end
}

/// Each interval of `w` is strictly later than those before it, in both coordinates.
pub open spec fn strictly_monotone(w: Seq<Interval>) -> bool {
    forall|i: int, j: int| 0 <= i < j < w.len() ==> lt2(#[trigger] w[i], #[trigger] w[j])
}

/// The position every fresh stream starts from.
pub open spec fn origin() -> Interval {
    Interval { start: 0, end: 0 }
}

// ---------------------------------------------------------------- term

/// Leaf state: cursor over one term's position list, producing `[pos, pos]`.
pub struct TermState {
    term_index: usize,
    cursor: usize,
}

impl TermState {
    pub closed spec fn wf<P: TermPositions>(&self, p: &P, n: nat) -> bool {
        self.term_index < n && self.cursor <= p.list(self.term_index as int).len()
    }

    pub closed spec fn fuel<P: TermPositions>(&self, p: &P) -> nat {
        (p.list(self.term_index as int).len() - self.cursor) as nat
    }

    /// The part of the invariant that does not depend on the document.
    pub closed spec fn shape(&self, n: nat) -> bool {
        self.term_index < n
    }

    /// The most recently produced interval, or the origin.
    pub closed spec fn floor<P: TermPositions>(&self, p: &P) -> Interval {
        if self.cursor == 0 {
            origin()
        } else {
            let pos = p.list(self.term_index as int)[self.cursor - 1];
            Interval { start: pos, end: pos }
        }
    }

    /// No further interval will be produced.
    pub closed spec fn finished<P: TermPositions>(&self, p: &P) -> bool {
        self.cursor >= p.list(self.term_index as int).len()
    }

    /// An interval has been produced since the last reset.
    pub closed spec fn started<P: TermPositions>(&self, p: &P) -> bool {
        self.cursor > 0
    }

    /// The interval the next call produces, if any.
    pub closed spec fn upcoming<P: TermPositions>(&self, p: &P) -> Option<Interval> {
        if self.cursor < p.list(self.term_index as int).len() {
            let pos = p.list(self.term_index as int)[self.cursor as int];
            Some(Interval { start: pos, end: pos })
        } else {
            None
        }
    }

    fn new(term_index: usize) -> (r: Self)
        ensures
            r.term_index == term_index,
            r.cursor == 0,
    {
        TermState { term_index, cursor: 0 }
    }

    fn reset(&mut self)
        ensures
            final(self).term_index == old(self).term_index,
            final(self).cursor == 0,
    {
        self.cursor = 0;
    }

    fn next_interval<P: TermPositions>(&mut self, p: &P, Ghost(n): Ghost<nat>) -> (r: Option<Interval>)
        requires
            old(self).wf(p, n),
            positions_ok(p, n),
        ensures
            final(self).wf(p, n),
            final(self).term_index == old(self).term_index,
            r == old(self).upcoming(p),
            final(self).cursor == if old(self).cursor < p.list(old(self).term_index as int).len() {
                old(self).cursor + 1
            } else {
                old(self).cursor as int
            },
            final(self).fuel(p) <= old(self).fuel(p),
            r is Some ==> final(self).fuel(p) < old(self).fuel(p),
            r matches Some(iv) ==> ok_iv(iv) && le2(old(self).floor(p), iv) && final(self).floor(p) == iv,
            le2(old(self).floor(p), final(self).floor(p)),
            r is None ==> final(self).finished(p),
            old(self).finished(p) ==> r is None,
            old(self).started(p) ==> final(self).started(p),
            r is Some ==> final(self).started(p),
            starts_after(strict_positions(p, n) && old(self).started(p), old(self).floor(p), r),
            ends_after(strict_positions(p, n) && old(self).started(p), old(self).floor(p), r),
    {
        let list = p.positions(self.term_index);
        proof {
            assert(sorted(p.list(self.term_index as int)));
            if strict_positions(p, n) {
                assert(strictly_sorted(p.list(self.term_index as int)));
            }
        }
        if self.cursor < list.len() {
            let pos = list[self.cursor];
            self.cursor += 1;
            Some(Interval::point(pos))
        } else {
            None
        }
    }
}

// ---------------------------------------------------------------- filters

/// Which property a filter node checks of its inner node's intervals.
#[derive(Clone, Copy)]
pub enum FilterKind {
    /// Gap count at most `max_gaps`.
    MaxGaps { max_gaps: u32 },
    /// Gap count within `min_gaps..=max_gaps`.
    GapsInRange { min_gaps: u32, max_gaps: u32 },
    /// Width at most `max_width`.
    MaxWidth { max_width: u32 },
    /// Inside `[lo, hi]`; production stops at the first interval starting past `hi`.
    WithinPositions { lo: u32, hi: u32 },
}

/// The filter accepts an interval whose node reports `gaps`.
pub open spec fn filter_accepts(kind: FilterKind, iv: Interval, gaps: Option<u64>) -> bool {
    match kind {
        FilterKind::MaxGaps { max_gaps } => gaps matches Some(g) && g <= max_gaps,
        FilterKind::GapsInRange { min_gaps, max_gaps } => gaps matches Some(g) && min_gaps <= g <= max_gaps,
        FilterKind::MaxWidth { max_width } => spec_width(iv) <= max_width,
        FilterKind::WithinPositions { lo, hi } => lo <= iv.start && iv.end <= hi,
    }
}

/// Filter node: keeps the intervals of `inner` that the filter accepts.
pub struct FilterState {
    inner: Box<NodeState>,
    kind: FilterKind,
    /// The intervals the inner node returned since the last reset, each with
    /// the gap count it reported for it.
    read: Ghost<Seq<(Interval, Option<u64>)>>,
    /// The intervals the filter produced since the last reset.
    kept: Ghost<Seq<Interval>>,
}

/// The intervals of `read` that the filter accepts, in order.
pub open spec fn accepted_of(kind: FilterKind, read: Seq<(Interval, Option<u64>)>) -> Seq<Interval>
    decreases read.len(),
{
    if read.len() == 0 {
        Seq::empty()
    } else {
        let rest = accepted_of(kind, read.drop_last());
        let (iv, g) = read.last();
        if filter_accepts(kind, iv, g) { rest.push(iv) } else { rest }
    }
}

/// Reading one more interval extends the accepted ones by it when the
/// filter accepts it.
proof fn lemma_accepted_push(kind: FilterKind, read: Seq<(Interval, Option<u64>)>, x: (Interval, Option<u64>))
    ensures
        accepted_of(kind, read.push(x)) == if filter_accepts(kind, x.0, x.1) {
            accepted_of(kind, read).push(x.0)
        } else {
            accepted_of(kind, read)
        },
{
    assert(read.push(x).drop_last() == read);
}

impl FilterState {
    pub closed spec fn wf<P: TermPositions>(&self, p: &P, n: nat) -> bool
        decreases self,
    {
        &&& self.inner.wf(p, n)
        &&& self.kept@ == accepted_of(self.kind, self.read@)
    }

    pub closed spec fn shape(&self, n: nat) -> bool
        decreases self,
    {
        self.inner.shape(n)
    }

    proof fn lemma_wf_shape<P: TermPositions>(&self, p: &P, n: nat)
        requires
            self.wf(p, n),
        ensures
            self.shape(n),
        decreases self,
    {
        self.inner.lemma_wf_shape(p, n);
    }

    /// What the inner node returned since the last reset, with the gap
    /// count it reported for each.
    pub closed spec fn read(&self) -> Seq<(Interval, Option<u64>)> {
        self.read@
    }

    /// What the filter produced since the last reset.
    pub closed spec fn kept(&self) -> Seq<Interval> {
        self.kept@
    }

    pub closed spec fn fuel<P: TermPositions>(&self, p: &P) -> nat
        decreases self, 0nat,
    {
        self.inner.fuel(p)
    }

    pub closed spec fn floor<P: TermPositions>(&self, p: &P) -> Interval
        decreases self,
    {
        self.inner.floor(p)
    }

    pub closed spec fn depth(&self) -> nat
        decreases self, 0nat,
    {
        self.inner.depth() + 1
    }

    pub closed spec fn spec_gaps(&self) -> Option<u64>
        decreases self,
    {
        self.inner.spec_gaps()
    }

    pub closed spec fn spec_kind(&self) -> FilterKind {
        self.kind
    }

    /// The inner node has produced an interval since the last reset.
    pub closed spec fn started<P: TermPositions>(&self, p: &P) -> bool
        decreases self,
    {
        self.inner.started(p)
    }

    pub closed spec fn finished<P: TermPositions>(&self, p: &P) -> bool
        decreases self,
    {
        self.inner.finished(p) || (self.kind matches FilterKind::WithinPositions { hi, .. }
            && self.inner.floor(p).start > hi)
    }

    fn new(inner: NodeState, kind: FilterKind) -> (r: Self)
        ensures
            r.inner == inner,
            r.kind == kind,
    {
        FilterState { inner: Box::new(inner), kind, read: Ghost(Seq::empty()), kept: Ghost(Seq::empty()) }
    }

    fn reset<P: TermPositions>(&mut self, p: &P, Ghost(n): Ghost<nat>)
        requires
            old(self).shape(n),
        ensures
            final(self).wf(p, n),
            final(self).shape(n),
            final(self).depth() == old(self).depth(),
            final(self).floor(p) == origin(),
        decreases old(self).depth(), 0nat,
    {
        self.inner.reset(p, Ghost(n));
        proof {
            self.read = Ghost(Seq::empty());
            self.kept = Ghost(Seq::empty());
        }
    }

    fn next_interval<P: TermPositions>(&mut self, p: &P, Ghost(n): Ghost<nat>) -> (r: Option<Interval>)
        requires
            old(self).wf(p, n),
            positions_ok(p, n),
        ensures
            final(self).wf(p, n),
            final(self).depth() == old(self).depth(),
            final(self).fuel(p) <= old(self).fuel(p),
            r is Some ==> final(self).fuel(p) < old(self).fuel(p),
            le2(old(self).floor(p), final(self).floor(p)),
            r matches Some(iv) ==> ok_iv(iv) && le2(old(self).floor(p), iv) && final(self).floor(p) == iv,
            final(self).spec_kind() == old(self).spec_kind(),
            r matches Some(iv) ==> filter_accepts(old(self).spec_kind(), iv, final(self).spec_gaps()),
            r is None ==> final(self).finished(p),
            old(self).finished(p) ==> r is None,
            old(self).started(p) ==> final(self).started(p),
            r is Some ==> final(self).started(p),
            starts_after(strict_positions(p, n) && old(self).started(p), old(self).floor(p), r),
            ends_after(strict_positions(p, n) && old(self).started(p), old(self).floor(p), r),
            final(self).kept() == accepted_of(final(self).spec_kind(), final(self).read()),
            final(self).kept() == match r {
                Some(iv) => old(self).kept().push(iv),
                None => old(self).kept(),
            },
            old(self).read().is_prefix_of(final(self).read()),
        decreases old(self).depth(), 0nat,
    {
        let ghost start_fuel = self.fuel(p);
        let ghost start_floor = self.floor(p);
        let ghost d = self.inner.depth();
        loop
            invariant
                self.wf(p, n),
                positions_ok(p, n),
                self.fuel(p) <= start_fuel,
                start_fuel == old(self).fuel(p),
                start_floor == old(self).floor(p),
                le2(start_floor, self.floor(p)),
                self.inner.depth() == d,
                self.kind == old(self).kind,
                old(self).depth() == d + 1,
                old(self).finished(p) ==> self.finished(p),
                old(self).started(p) ==> self.started(p),
                self.kept@ == old(self).kept@,
                old(self).read@.is_prefix_of(self.read@),
            decreases self.fuel(p),
        {
            let iv = match self.inner.next_interval(p, Ghost(n)) {
                Some(iv) => iv,
                None => return None,
            };
            let ghost read0 = self.read@;
            let ghost entry = (iv, self.inner.spec_gaps());
            proof {
                lemma_accepted_push(self.kind, read0, entry);
                self.read = Ghost(read0.push(entry));
                if filter_accepts(self.kind, iv, entry.1) {
                    self.kept = Ghost(self.kept@.push(iv));
                }
                assert(old(self).read@.is_prefix_of(self.read@)) by {
                    assert forall|i: int| 0 <= i < old(self).read@.len() implies self.read@[i] == old(self).read@[i] by {
                        assert(read0[i] == old(self).read@[i]);
                    }
                }
            }
            match self.kind {
                FilterKind::MaxGaps { max_gaps } => {
                    match self.inner.gaps() {
                        Some(g) => {
                            if g <= max_gaps as u64 {
                                return Some(iv);
                            }
                        },
                        None => {},
                    }
                },
                FilterKind::GapsInRange { min_gaps, max_gaps } => {
                    match self.inner.gaps() {
                        Some(g) => {
                            if g >= min_gaps as u64 && g <= max_gaps as u64 {
                                return Some(iv);
                            }
                        },
                        None => {},
                    }
                },
                FilterKind::MaxWidth { max_width } => {
                    if iv.width() <= max_width {
                        return Some(iv);
                    }
                },
                FilterKind::WithinPositions { lo, hi } => {
                    if iv.start > hi {
                        return None;
                    }
                    if iv.start >= lo && iv.end <= hi {
                        return Some(iv);
                    }
                },
            }
        }
    }

    fn gaps(&self) -> (r: Option<u64>)
        ensures
            r == self.spec_gaps(),
        decreases self.depth(), 0nat,
    {
        self.inner.gaps()
    }
}

// ---------------------------------------------------------------- phrase

/// Term `terms[k]` occurs at position `start + k` for every `k`.
pub open spec fn phrase_at<P: TermPositions>(p: &P, terms: Seq<usize>, start: u32) -> bool {
    forall|k: int| 0 <= k < terms.len() ==> #[trigger] occurs_at(p, terms, start, k)
}

/// Term `terms[k]` occurs at position `start + k`.
pub open spec fn occurs_at<P: TermPositions>(p: &P, terms: Seq<usize>, start: u32, k: int) -> bool {
    start + k <= u32::MAX && p.list(terms[k] as int).contains((start + k) as u32)
}

/// Specialized evaluator for exact term-only phrases: anchors on the term
/// with the fewest occurrences and probes the other lists at fixed offsets.
pub struct PhraseState {
    term_indices: Vec<usize>,
    phrase_width: u32,
    anchor_child: usize,
    anchor_cursor: usize,
    anchor_initialized: bool,
    exhausted: bool,
    floor: Ghost<Interval>,
}

impl PhraseState {
    pub closed spec fn anchor_list<P: TermPositions>(&self, p: &P) -> Seq<u32> {
        p.list(self.term_indices@[self.anchor_child as int] as int)
    }

    pub closed spec fn wf<P: TermPositions>(&self, p: &P, n: nat) -> bool {
        let ts = self.term_indices@;
        &&& ts.len() >= 2
        &&& ts.len() - 1 == self.phrase_width
        &&& forall|k: int| 0 <= k < ts.len() ==> #[trigger] ts[k] < n
        &&& self.anchor_child < ts.len()
        &&& !self.anchor_initialized ==> self.floor@ == origin() && !self.exhausted
        &&& self.anchor_initialized && !self.exhausted ==> {
            &&& self.anchor_cursor <= self.anchor_list(p).len()
            &&& self.anchor_list(p).len() <= p.list(ts[0] as int).len()
            &&& self.floor@ != origin() ==> forall|k: int| self.anchor_cursor <= k < self.anchor_list(p).len()
                ==> self.floor@.start + self.anchor_child <= #[trigger] self.anchor_list(p)[k]
            &&& self.floor@ != origin() && strictly_sorted(self.anchor_list(p)) ==> forall|k: int|
                self.anchor_cursor <= k < self.anchor_list(p).len()
                ==> self.floor@.start + self.anchor_child < #[trigger] self.anchor_list(p)[k]
        }
        &&& self.floor@ == origin() || self.floor@.end == self.floor@.start + self.phrase_width
    }

    pub closed spec fn shape(&self, n: nat) -> bool {
        let ts = self.term_indices@;
        &&& ts.len() >= 2
        &&& ts.len() - 1 == self.phrase_width
        &&& forall|k: int| 0 <= k < ts.len() ==> #[trigger] ts[k] < n
        &&& self.anchor_child < ts.len()
    }

    pub closed spec fn fuel<P: TermPositions>(&self, p: &P) -> nat {
        if self.exhausted {
            0
        } else if !self.anchor_initialized {
            p.list(self.term_indices@[0] as int).len() + 1
        } else {
            (self.anchor_list(p).len() - self.anchor_cursor) as nat
        }
    }

    pub closed spec fn floor<P: TermPositions>(&self, p: &P) -> Interval {
        self.floor@
    }

    pub closed spec fn finished<P: TermPositions>(&self, p: &P) -> bool {
        self.exhausted
    }

    /// An interval has been produced since the last reset.
    pub closed spec fn started<P: TermPositions>(&self, p: &P) -> bool {
        self.floor@ != origin()
    }

    pub closed spec fn terms(&self) -> Seq<usize> {
        self.term_indices@
    }

    /// `s` starts an occurrence of the phrase that the node has yet to
    /// produce: every occurrence before the anchor is chosen, then those
    /// whose anchor position the cursor has not passed.
    pub closed spec fn owed<P: TermPositions>(&self, p: &P, s: u32) -> bool {
        if self.exhausted {
            false
        } else if !self.anchor_initialized {
            phrase_at(p, self.term_indices@, s)
        } else {
            phrase_at(p, self.term_indices@, s) && exists|k: int| self.anchor_cursor <= k < self.anchor_list(p).len()
                && #[trigger] self.anchor_list(p)[k] == s + self.anchor_child
        }
    }

    fn new(term_indices: Vec<usize>) -> (r: Self)
        requires
            term_indices@.len() >= 2,
            term_indices@.len() - 1 <= u32::MAX,
        ensures
            r.term_indices@ == term_indices@,
            r.phrase_width == term_indices@.len() - 1,
            r.anchor_child == 0,
            !r.anchor_initialized,
            !r.exhausted,
            r.floor@ == origin(),
    {
        let width = (term_indices.len() - 1) as u32;
        PhraseState {
            phrase_width: width,
            term_indices,
            anchor_child: 0,
            anchor_cursor: 0,
            anchor_initialized: false,
            exhausted: false,
            floor: Ghost(origin()),
        }
    }

    fn reset(&mut self)
        ensures
            final(self).term_indices@ == old(self).term_indices@,
            final(self).phrase_width == old(self).phrase_width,
            !final(self).anchor_initialized,
            !final(self).exhausted,
            final(self).anchor_child == 0,
            final(self).floor@ == origin(),
    {
        self.anchor_child = 0;
        self.anchor_cursor = 0;
        self.anchor_initialized = false;
        self.exhausted = false;
        self.floor = Ghost(origin());
    }

    fn initialize_anchor<P: TermPositions>(&mut self, p: &P, Ghost(n): Ghost<nat>) -> (r: bool)
        requires
            old(self).wf(p, n),
            positions_ok(p, n),
        ensures
            final(self).wf(p, n),
            final(self).term_indices@ == old(self).term_indices@,
            final(self).floor@ == old(self).floor@,
            final(self).fuel(p) <= old(self).fuel(p),
            old(self).anchor_initialized ==> *final(self) == *old(self),
            r == (final(self).anchor_initialized && !final(self).exhausted),
            old(self).exhausted ==> final(self).exhausted,
            !r ==> final(self).exhausted,
            r && !old(self).anchor_initialized ==> final(self).fuel(p) < old(self).fuel(p),
            forall|s: u32| #[trigger] final(self).owed(p, s) == old(self).owed(p, s),
    {
        if self.exhausted {
            return false;
        }
        if self.anchor_initialized {
            return true;
        }
        let mut best_child: usize = 0;
        let mut best_len: usize = usize::MAX;
        let mut idx: usize = 0;
        let ghost ts = self.term_indices@;
        while idx < self.term_indices.len()
            invariant
                self.term_indices@ == ts,
                ts.len() >= 2,
                forall|k: int| 0 <= k < ts.len() ==> #[trigger] ts[k] < n,
                positions_ok(p, n),
                idx <= ts.len(),
                best_child < ts.len(),
                idx == 0 ==> best_len == usize::MAX && best_child == 0,
                idx > 0 ==> best_child < idx && best_len == p.list(ts[best_child as int] as int).len()
                    && best_len <= p.list(ts[0] as int).len(),
                self.wf(p, n),
                !self.anchor_initialized,
                *self == *old(self),
            decreases ts.len() - idx,
        {
            let term_idx = self.term_indices[idx];
            let list = p.positions(term_idx);
            let len = list.len();
            assert(len == p.list(ts[idx as int] as int).len());
            if len == 0 {
                proof {
                    assert forall|s: u32| !phrase_at(p, ts, s) by {
                        if phrase_at(p, ts, s) {
                            assert(occurs_at(p, ts, s, idx as int));
                        }
                    }
                }
                self.exhausted = true;
                self.anchor_initialized = true;
                return false;
            }
            if len < best_len {
                best_len = len;
                best_child = idx;
            }
            idx += 1;
        }
        self.anchor_child = best_child;
        self.anchor_cursor = 0;
        self.anchor_initialized = true;
        proof {
            assert(self.floor@ == origin());
            assert forall|s: u32| #[trigger] self.owed(p, s) == old(self).owed(p, s) by {
                if phrase_at(p, ts, s) {
                    assert(occurs_at(p, ts, s, best_child as int));
                    let l = p.list(ts[best_child as int] as int);
                    let k = choose|k: int| 0 <= k < l.len() && l[k] == (s + best_child) as u32;
                    assert(self.anchor_list(p)[k] == s + self.anchor_child);
                }
            }
        }
        true
    }

    fn matches_phrase_at<P: TermPositions>(&self, p: &P, Ghost(n): Ghost<nat>, start: u32) -> (r: bool)
        requires
            self.wf(p, n),
            positions_ok(p, n),
        ensures
            r == phrase_at(p, self.term_indices@, start),
    {
        let ghost ts = self.term_indices@;
        let mut idx: usize = 0;
        while idx < self.term_indices.len()
            invariant
                self.wf(p, n),
                positions_ok(p, n),
                ts == self.term_indices@,
                idx <= ts.len(),
                ts.len() - 1 == self.phrase_width,
                forall|k: int| 0 <= k < idx ==> #[trigger] occurs_at(p, ts, start, k),
            decreases ts.len() - idx,
        {
            let term_idx = self.term_indices[idx];
            let target = match start.checked_add(idx as u32) {
                Some(t) => t,
                None => {
                    proof {
                        if phrase_at(p, ts, start) {
                            assert(occurs_at(p, ts, start, idx as int));
                        }
                    }
                    return false;
                },
            };
            let list = p.positions(term_idx);
            proof {
                assert(sorted(p.list(term_idx as int)));
            }
            assert(idx as u32 == idx);
            assert(target == start + idx);
            if !sorted_contains(list, target) {
                proof {
                    if phrase_at(p, ts, start) {
                        assert(occurs_at(p, ts, start, idx as int));
                    }
                }
                return false;
            }
            assert(occurs_at(p, ts, start, idx as int));
            idx += 1;
        }
        true
    }

    fn next_interval<P: TermPositions>(&mut self, p: &P, Ghost(n): Ghost<nat>) -> (r: Option<Interval>)
        requires
            old(self).wf(p, n),
            positions_ok(p, n),
        ensures
            final(self).wf(p, n),
            final(self).terms() == old(self).terms(),
            final(self).fuel(p) <= old(self).fuel(p),
            r is Some ==> final(self).fuel(p) < old(self).fuel(p),
            le2(old(self).floor(p), final(self).floor(p)),
            r matches Some(iv) ==> ok_iv(iv) && le2(old(self).floor(p), iv) && final(self).floor(p) == iv,
            r matches Some(iv) ==> phrase_at(p, old(self).terms(), iv.start)
                && iv.end == iv.start + old(self).terms().len() - 1,
            r is None ==> final(self).finished(p),
            old(self).finished(p) ==> r is None,
            old(self).started(p) ==> final(self).started(p),
            r is Some ==> final(self).started(p),
            starts_after(strict_positions(p, n) && old(self).started(p), old(self).floor(p), r),
            ends_after(strict_positions(p, n) && old(self).started(p), old(self).floor(p), r),
            forall|s: u32| #[trigger] final(self).owed(p, s) ==> old(self).owed(p, s),
            forall|s: u32| #[trigger] old(self).owed(p, s) ==> final(self).owed(p, s) || (r matches Some(iv) && iv.start == s),
            r is None ==> forall|s: u32| !(#[trigger] final(self).owed(p, s)),
    {
        let ghost was_init = self.anchor_initialized;
        if !self.initialize_anchor(p, Ghost(n)) {
            return None;
        }
        let ghost ts = self.term_indices@;
        let ghost start_fuel = old(self).fuel(p);
        let anchor_term = self.term_indices[self.anchor_child];
        let anchor_positions = p.positions(anchor_term);
        proof {
            assert(sorted(p.list(anchor_term as int)));
            if strict_positions(p, n) {
                assert(strictly_sorted(p.list(anchor_term as int)));
            }
        }
        while self.anchor_cursor < anchor_positions.len()
            invariant
                self.wf(p, n),
                positions_ok(p, n),
                self.term_indices@ == ts,
                ts == old(self).term_indices@,
                self.anchor_initialized,
                !self.exhausted,
                anchor_term == ts[self.anchor_child as int],
                anchor_positions@ == p.list(anchor_term as int),
                sorted(anchor_positions@),
                self.fuel(p) < start_fuel || (was_init && self.fuel(p) <= start_fuel),
                le2(old(self).floor(p), self.floor@),
                self.floor@ == old(self).floor@,
                start_fuel == old(self).fuel(p),
                was_init == old(self).anchor_initialized,
                strict_positions(p, n) ==> strictly_sorted(anchor_positions@),
                forall|s: u32| #[trigger] self.owed(p, s) == old(self).owed(p, s),
            decreases anchor_positions@.len() - self.anchor_cursor,
        {
            let anchor_pos = anchor_positions[self.anchor_cursor];
            let ghost before = *self;
            let ghost c = self.anchor_cursor as int;
            self.anchor_cursor += 1;
            let shift = self.anchor_child as u32;
            proof {
                assert(self.anchor_list(p) == before.anchor_list(p));
                assert forall|s: u32| #[trigger] self.owed(p, s) implies before.owed(p, s) by {
                    let k = choose|k: int| self.anchor_cursor <= k < self.anchor_list(p).len()
                        && #[trigger] self.anchor_list(p)[k] == s + self.anchor_child;
                    assert(before.anchor_list(p)[k] == s + before.anchor_child);
                }
                assert forall|s: u32| #[trigger] before.owed(p, s) implies self.owed(p, s) || anchor_pos == s + shift by {
                    let k = choose|k: int| before.anchor_cursor <= k < before.anchor_list(p).len()
                        && #[trigger] before.anchor_list(p)[k] == s + before.anchor_child;
                    if k > c {
                        assert(self.anchor_list(p)[k] == s + self.anchor_child);
                    }
                }
            }
            if anchor_pos >= shift {
                let start = anchor_pos - shift;
                if self.matches_phrase_at(p, Ghost(n), start) {
                    proof {
                        let last = ts.len() - 1;
                        assert(occurs_at(p, ts, start, last));
                        assert(start + last <= u32::MAX);
                        let k = choose|k: int| 0 <= k < p.list(ts[last] as int).len()
                            && p.list(ts[last] as int)[k] == (start + last) as u32;
                        assert(p.list(ts[last] as int)[k] < u32::MAX);
                    }
                    let iv = Interval::new(start, start + self.phrase_width);
                    let ghost old_floor = self.floor@;
                    proof {
                        if strict_positions(p, n) && old_floor != origin() {
                            assert(old_floor.start + self.anchor_child < anchor_positions@[self.anchor_cursor - 1]);
                        }
                    }
                    self.floor = Ghost(iv);
                    proof {
                        assert forall|k: int| self.anchor_cursor <= k < self.anchor_list(p).len()
                            implies self.floor@.start + self.anchor_child <= #[trigger] self.anchor_list(p)[k] by {
                            assert(anchor_positions@[self.anchor_cursor - 1] <= anchor_positions@[k]);
                        }
                        if strictly_sorted(self.anchor_list(p)) {
                            assert forall|k: int| self.anchor_cursor <= k < self.anchor_list(p).len()
                                implies self.floor@.start + self.anchor_child < #[trigger] self.anchor_list(p)[k] by {
                                assert(anchor_positions@[self.anchor_cursor - 1] < anchor_positions@[k]);
                            }
                        }
                    }
                    proof {
                        assert forall|s: u32| #[trigger] self.owed(p, s) implies old(self).owed(p, s) by {
                            assert(before.owed(p, s));
                        }
                        assert forall|s: u32| #[trigger] old(self).owed(p, s) implies self.owed(p, s) || iv.start == s by {
                            assert(before.owed(p, s));
                        }
                    }
                    return Some(iv);
                }
                proof {
                    assert(!phrase_at(p, ts, start));
                }
            }
            proof {
                assert forall|s: u32| #[trigger] self.owed(p, s) == old(self).owed(p, s) by {
                    assert(before.owed(p, s) == old(self).owed(p, s));
                    if before.owed(p, s) && anchor_pos == s + shift {
                        assert(phrase_at(p, ts, s));
                        assert(anchor_pos >= shift);
                        assert((anchor_pos - shift) as u32 == s);
                    }
                }
            }
        }
        proof {
            assert forall|s: u32| !(#[trigger] old(self).owed(p, s)) by {
                assert(!self.owed(p, s));
            }
        }
        self.exhausted = true;
        None
    }
}

// ---------------------------------------------------------------- relations

/// Which binary relation a relation node evaluates between its streams.
#[derive(Clone, Copy, PartialEq, Eq, Structural)]
pub enum RelationKind {
    Containing,
    ContainedBy,
    NotContaining,
    NotContainedBy,
    Overlapping,
    NonOverlapping,
    Before,
    After,
}

/// How far the `b` stream is skipped for a given `a` interval.
pub open spec fn skip_b(kind: RelationKind, a: Interval, b: Interval) -> bool {
    match kind {
        RelationKind::Containing | RelationKind::NotContaining => b.start < a.start && b.end < a.end,
        RelationKind::ContainedBy | RelationKind::NotContainedBy => b.end < a.end,
        RelationKind::Overlapping | RelationKind::NonOverlapping => b.end < a.start,
        RelationKind::Before => b.start <= a.start,
        RelationKind::After => false,
    }
}

/// What an interval `a` produced by a relation node satisfies against the
/// `b` interval the node holds after producing it (`None` once `b` is
/// exhausted): the positive relations name their witness from `b`, the
/// negative ones clear the first `b` interval not skipped.
pub open spec fn relation_holds(kind: RelationKind, a: Interval, b: Option<Interval>) -> bool {
    match kind {
        RelationKind::Containing => b matches Some(x) && spec_contains(a, x),
        RelationKind::ContainedBy => b matches Some(x) && spec_contains(x, a),
        RelationKind::NotContaining => b matches Some(x) ==> !spec_contains(a, x),
        RelationKind::NotContainedBy => b matches Some(x) ==> !spec_contains(x, a),
        RelationKind::Overlapping => b matches Some(x) && spec_overlaps(a, x),
        RelationKind::NonOverlapping => b matches Some(x) ==> !spec_overlaps(a, x),
        RelationKind::Before => b matches Some(x) && x.start > a.start,
        RelationKind::After => b matches Some(x) && x.start < a.start,
    }
}

fn should_skip(kind: RelationKind, a_iv: Interval, b: Option<Interval>) -> (r: bool)
    ensures
        r == (b matches Some(x) && skip_b(kind, a_iv, x)),
{
    match b {
        Some(b_iv) => match kind {
            RelationKind::Containing | RelationKind::NotContaining => b_iv.start < a_iv.start && b_iv.end < a_iv.end,
            RelationKind::ContainedBy | RelationKind::NotContainedBy => b_iv.end < a_iv.end,
            RelationKind::Overlapping | RelationKind::NonOverlapping => b_iv.end < a_iv.start,
            RelationKind::Before => b_iv.start <= a_iv.start,
            RelationKind::After => false,
        },
        None => false,
    }
}

/// Two-pointer relation node between a source stream `a` and a filter
/// stream `b`.
pub struct RelationState {
    kind: RelationKind,
    a: Box<NodeState>,
    b: Box<NodeState>,
    b_current: Option<Interval>,
    b_exhausted: bool,
    /// The intervals of `a` decided on since the last reset, each with the
    /// interval of `b` it was compared with.
    read: Ghost<Seq<(Interval, Option<Interval>)>>,
    /// The intervals the node produced since the last reset.
    kept: Ghost<Seq<Interval>>,
}

/// The intervals of `read` that stand in the relation with the interval of
/// `b` they were compared with, in order.
pub open spec fn related_of(kind: RelationKind, read: Seq<(Interval, Option<Interval>)>) -> Seq<Interval>
    decreases read.len(),
{
    if read.len() == 0 {
        Seq::empty()
    } else {
        let rest = related_of(kind, read.drop_last());
        let (a, b) = read.last();
        if relation_holds(kind, a, b) { rest.push(a) } else { rest }
    }
}

/// Deciding on one more interval of `a` keeps it exactly when it stands in
/// the relation.
proof fn lemma_related_push(kind: RelationKind, read: Seq<(Interval, Option<Interval>)>, x: (Interval, Option<Interval>))
    ensures
        related_of(kind, read.push(x)) == if relation_holds(kind, x.0, x.1) {
            related_of(kind, read).push(x.0)
        } else {
            related_of(kind, read)
        },
{
    assert(read.push(x).drop_last() == read);
}

impl RelationState {
    pub closed spec fn wf<P: TermPositions>(&self, p: &P, n: nat) -> bool
        decreases self,
    {
        &&& self.a.wf(p, n)
        &&& self.b.wf(p, n)
        &&& self.b_exhausted ==> self.b_current is None
        &&& self.kept@ == related_of(self.kind, self.read@)
    }

    /// The intervals of `a` decided on since the last reset, each with the
    /// interval of `b` it was compared with.
    pub closed spec fn read(&self) -> Seq<(Interval, Option<Interval>)> {
        self.read@
    }

    /// What the node produced since the last reset.
    pub closed spec fn kept(&self) -> Seq<Interval> {
        self.kept@
    }

    pub closed spec fn fuel<P: TermPositions>(&self, p: &P) -> nat
        decreases self, 0nat,
    {
        self.a.fuel(p) + self.b.fuel(p) + if self.b_current is Some { 1nat } else { 0nat }
    }

    pub closed spec fn shape(&self, n: nat) -> bool
        decreases self,
    {
        self.a.shape(n) && self.b.shape(n)
    }

    proof fn lemma_wf_shape<P: TermPositions>(&self, p: &P, n: nat)
        requires
            self.wf(p, n),
        ensures
            self.shape(n),
        decreases self,
    {
        self.a.lemma_wf_shape(p, n);
        self.b.lemma_wf_shape(p, n);
    }

    pub closed spec fn floor<P: TermPositions>(&self, p: &P) -> Interval
        decreases self,
    {
        self.a.floor(p)
    }

    pub closed spec fn depth(&self) -> nat
        decreases self, 0nat,
    {
        if self.a.depth() >= self.b.depth() { self.a.depth() + 1 } else { self.b.depth() + 1 }
    }

    pub closed spec fn spec_gaps(&self) -> Option<u64>
        decreases self,
    {
        self.a.spec_gaps()
    }

    pub closed spec fn spec_kind(&self) -> RelationKind {
        self.kind
    }

    pub closed spec fn finished<P: TermPositions>(&self, p: &P) -> bool
        decreases self,
    {
        self.a.finished(p) || (self.kind == RelationKind::After && self.b_exhausted)
    }

    pub closed spec fn spec_b_current(&self) -> Option<Interval> {
        self.b_current
    }

    /// The source stream has produced an interval since the last reset.
    pub closed spec fn started<P: TermPositions>(&self, p: &P) -> bool
        decreases self,
    {
        self.a.started(p)
    }

    fn new(kind: RelationKind, a: NodeState, b: NodeState) -> (r: Self)
        ensures
            r.kind == kind,
            r.a == a,
            r.b == b,
            r.b_current is None,
            !r.b_exhausted,
    {
        RelationState { kind, a: Box::new(a), b: Box::new(b), b_current: None, b_exhausted: false,
            read: Ghost(Seq::empty()), kept: Ghost(Seq::empty()) }
    }

    fn reset<P: TermPositions>(&mut self, p: &P, Ghost(n): Ghost<nat>)
        requires
            old(self).shape(n),
        ensures
            final(self).wf(p, n),
            final(self).shape(n),
            final(self).depth() == old(self).depth(),
            final(self).floor(p) == origin(),
        decreases old(self).depth(), 0nat,
    {
        self.a.reset(p, Ghost(n));
        self.b.reset(p, Ghost(n));
        self.b_current = None;
        self.b_exhausted = false;
        proof {
            self.read = Ghost(Seq::empty());
            self.kept = Ghost(Seq::empty());
        }
    }

    fn advance_b<P: TermPositions>(&mut self, p: &P, Ghost(n): Ghost<nat>) -> (r: Option<Interval>)
        requires
            old(self).wf(p, n),
            positions_ok(p, n),
            old(self).b.depth() < old(self).depth(),
        ensures
            final(self).read == old(self).read,
            final(self).kept == old(self).kept,
            final(self).wf(p, n),
            final(self).kind == old(self).kind,
            final(self).a == old(self).a,
            final(self).depth() == old(self).depth(),
            final(self).b.depth() == old(self).b.depth(),
            final(self).fuel(p) <= old(self).fuel(p),
            old(self).b_current is Some ==> final(self).fuel(p) < old(self).fuel(p),
            final(self).b_current == r,
            old(self).b_exhausted ==> final(self).b_exhausted,
            r is None ==> final(self).b_exhausted,
        decreases old(self).depth(), 0nat,
    {
        if self.b_exhausted {
            return None;
        }
        match self.b.next_interval(p, Ghost(n)) {
            Some(iv) => {
                self.b_current = Some(iv);
                Some(iv)
            },
            None => {
                self.b_exhausted = true;
                self.b_current = None;
                None
            },
        }
    }

    fn ensure_b<P: TermPositions>(&mut self, p: &P, Ghost(n): Ghost<nat>) -> (r: Option<Interval>)
        requires
            old(self).wf(p, n),
            positions_ok(p, n),
            old(self).b.depth() < old(self).depth(),
        ensures
            final(self).read == old(self).read,
            final(self).kept == old(self).kept,
            final(self).wf(p, n),
            final(self).kind == old(self).kind,
            final(self).a == old(self).a,
            final(self).depth() == old(self).depth(),
            final(self).b.depth() == old(self).b.depth(),
            final(self).fuel(p) <= old(self).fuel(p),
            final(self).b_current == r,
            old(self).b_exhausted ==> final(self).b_exhausted,
            r is None ==> final(self).b_exhausted,
        decreases old(self).depth(), 1nat,
    {
        if self.b_current.is_some() {
            return self.b_current;
        }
        self.advance_b(p, Ghost(n))
    }

    /// Skips `b` forward while the kind's skip condition holds for `a_iv`.
    fn skip<P: TermPositions>(&mut self, p: &P, Ghost(n): Ghost<nat>, a_iv: Interval)
        requires
            old(self).wf(p, n),
            positions_ok(p, n),
            old(self).b.depth() < old(self).depth(),
        ensures
            final(self).read == old(self).read,
            final(self).kept == old(self).kept,
            final(self).wf(p, n),
            final(self).kind == old(self).kind,
            final(self).a == old(self).a,
            final(self).depth() == old(self).depth(),
            final(self).b.depth() == old(self).b.depth(),
            final(self).fuel(p) <= old(self).fuel(p),
            final(self).b_current matches Some(b) ==> !skip_b(final(self).kind, a_iv, b),
            old(self).b_exhausted ==> final(self).b_exhausted,
        decreases old(self).depth(), 1nat,
    {
        while should_skip(self.kind, a_iv, self.b_current)
            invariant
                self.wf(p, n),
                positions_ok(p, n),
                self.kind == old(self).kind,
                self.a == old(self).a,
                self.depth() == old(self).depth(),
                self.b.depth() == old(self).b.depth(),
                self.b.depth() < self.depth(),
                self.fuel(p) <= old(self).fuel(p),
                old(self).b_exhausted ==> self.b_exhausted,
                self.read == old(self).read,
                self.kept == old(self).kept,
            decreases self.fuel(p),
        {
            self.advance_b(p, Ghost(n));
        }
    }

    fn next_containing<P: TermPositions>(&mut self, p: &P, Ghost(n): Ghost<nat>) -> (r: Option<Interval>)
        requires
            old(self).wf(p, n),
            positions_ok(p, n),
            old(self).kind == RelationKind::Containing,
        ensures
            final(self).wf(p, n),
            final(self).depth() == old(self).depth(),
            final(self).kind == old(self).kind,
            final(self).fuel(p) <= old(self).fuel(p),
            r is Some ==> final(self).fuel(p) < old(self).fuel(p),
            le2(old(self).floor(p), final(self).floor(p)),
            r matches Some(iv) ==> ok_iv(iv) && le2(old(self).floor(p), iv) && final(self).floor(p) == iv
                && relation_holds(old(self).kind, iv, final(self).b_current),
            r is None ==> final(self).finished(p),
            old(self).finished(p) ==> r is None,
            old(self).started(p) ==> final(self).started(p),
            r is Some ==> final(self).started(p),
            starts_after(strict_positions(p, n) && old(self).started(p), old(self).floor(p), r),
            ends_after(strict_positions(p, n) && old(self).started(p), old(self).floor(p), r),
            final(self).kept() == match r {
                Some(iv) => old(self).kept().push(iv),
                None => old(self).kept(),
            },
            old(self).read().is_prefix_of(final(self).read()),
        decreases old(self).depth(), 2nat,
    {
        proof { self.lemma_depths(); }
        loop
            invariant
                self.wf(p, n),
                positions_ok(p, n),
                self.kind == old(self).kind,
                self.kind == RelationKind::Containing,
                self.depth() == old(self).depth(),
                self.a.depth() < self.depth(),
                self.b.depth() < self.depth(),
                self.fuel(p) <= old(self).fuel(p),
                le2(old(self).floor(p), self.floor(p)),
                old(self).finished(p) ==> self.finished(p),
                old(self).started(p) ==> self.started(p),
                self.kept@ == old(self).kept@,
                old(self).read@.is_prefix_of(self.read@),
            decreases self.fuel(p),
        {
            let a_iv = match self.a.next_interval(p, Ghost(n)) {
                Some(iv) => iv,
                None => return None,
            };
            self.ensure_b(p, Ghost(n));
            self.skip(p, Ghost(n), a_iv);
            proof {
                let entry = (a_iv, self.b_current);
                lemma_related_push(self.kind, self.read@, entry);
                let read0 = self.read@;
                self.read = Ghost(read0.push(entry));
                if relation_holds(self.kind, a_iv, entry.1) {
                    self.kept = Ghost(self.kept@.push(a_iv));
                }
                assert(old(self).read@.is_prefix_of(self.read@)) by {
                    assert forall|i: int| 0 <= i < old(self).read@.len() implies self.read@[i] == old(self).read@[i] by {
                        assert(read0[i] == old(self).read@[i]);
                    }
                }
            }
            if match self.b_current { Some(b_iv) => a_iv.contains(b_iv), None => false } {
                return Some(a_iv);
            }
        }
    }

    fn next_contained_by<P: TermPositions>(&mut self, p: &P, Ghost(n): Ghost<nat>) -> (r: Option<Interval>)
        requires
            old(self).wf(p, n),
            positions_ok(p, n),
            old(self).kind == RelationKind::ContainedBy,
        ensures
            final(self).wf(p, n),
            final(self).depth() == old(self).depth(),
            final(self).kind == old(self).kind,
            final(self).fuel(p) <= old(self).fuel(p),
            r is Some ==> final(self).fuel(p) < old(self).fuel(p),
            le2(old(self).floor(p), final(self).floor(p)),
            r matches Some(iv) ==> ok_iv(iv) && le2(old(self).floor(p), iv) && final(self).floor(p) == iv
                && relation_holds(old(self).kind, iv, final(self).b_current),
            r is None ==> final(self).finished(p),
            old(self).finished(p) ==> r is None,
            old(self).started(p) ==> final(self).started(p),
            r is Some ==> final(self).started(p),
            starts_after(strict_positions(p, n) && old(self).started(p), old(self).floor(p), r),
            ends_after(strict_positions(p, n) && old(self).started(p), old(self).floor(p), r),
            final(self).kept() == match r {
                Some(iv) => old(self).kept().push(iv),
                None => old(self).kept(),
            },
            old(self).read().is_prefix_of(final(self).read()),
        decreases old(self).depth(), 2nat,
    {
        proof { self.lemma_depths(); }
        loop
            invariant
                self.wf(p, n),
                positions_ok(p, n),
                self.kind == old(self).kind,
                self.kind == RelationKind::ContainedBy,
                self.depth() == old(self).depth(),
                self.a.depth() < self.depth(),
                self.b.depth() < self.depth(),
                self.fuel(p) <= old(self).fuel(p),
                le2(old(self).floor(p), self.floor(p)),
                old(self).finished(p) ==> self.finished(p),
                old(self).started(p) ==> self.started(p),
                self.kept@ == old(self).kept@,
                old(self).read@.is_prefix_of(self.read@),
            decreases self.fuel(p),
        {
            let a_iv = match self.a.next_interval(p, Ghost(n)) {
                Some(iv) => iv,
                None => return None,
            };
            self.ensure_b(p, Ghost(n));
            self.skip(p, Ghost(n), a_iv);
            proof {
                let entry = (a_iv, self.b_current);
                lemma_related_push(self.kind, self.read@, entry);
                let read0 = self.read@;
                self.read = Ghost(read0.push(entry));
                if relation_holds(self.kind, a_iv, entry.1) {
                    self.kept = Ghost(self.kept@.push(a_iv));
                }
                assert(old(self).read@.is_prefix_of(self.read@)) by {
                    assert forall|i: int| 0 <= i < old(self).read@.len() implies self.read@[i] == old(self).read@[i] by {
                        assert(read0[i] == old(self).read@[i]);
                    }
                }
            }
            if match self.b_current { Some(b_iv) => b_iv.start <= a_iv.start, None => false } {
                return Some(a_iv);
            }
        }
    }

    fn next_not_containing<P: TermPositions>(&mut self, p: &P, Ghost(n): Ghost<nat>) -> (r: Option<Interval>)
        requires
            old(self).wf(p, n),
            positions_ok(p, n),
            old(self).kind == RelationKind::NotContaining,
        ensures
            final(self).wf(p, n),
            final(self).depth() == old(self).depth(),
            final(self).kind == old(self).kind,
            final(self).fuel(p) <= old(self).fuel(p),
            r is Some ==> final(self).fuel(p) < old(self).fuel(p),
            le2(old(self).floor(p), final(self).floor(p)),
            r matches Some(iv) ==> ok_iv(iv) && le2(old(self).floor(p), iv) && final(self).floor(p) == iv
                && relation_holds(old(self).kind, iv, final(self).b_current),
            r is None ==> final(self).finished(p),
            old(self).finished(p) ==> r is None,
            old(self).started(p) ==> final(self).started(p),
            r is Some ==> final(self).started(p),
            starts_after(strict_positions(p, n) && old(self).started(p), old(self).floor(p), r),
            ends_after(strict_positions(p, n) && old(self).started(p), old(self).floor(p), r),
            final(self).kept() == match r {
                Some(iv) => old(self).kept().push(iv),
                None => old(self).kept(),
            },
            old(self).read().is_prefix_of(final(self).read()),
        decreases old(self).depth(), 2nat,
    {
        proof { self.lemma_depths(); }
        loop
            invariant
                self.wf(p, n),
                positions_ok(p, n),
                self.kind == old(self).kind,
                self.kind == RelationKind::NotContaining,
                self.depth() == old(self).depth(),
                self.a.depth() < self.depth(),
                self.b.depth() < self.depth(),
                self.fuel(p) <= old(self).fuel(p),
                le2(old(self).floor(p), self.floor(p)),
                old(self).finished(p) ==> self.finished(p),
                old(self).started(p) ==> self.started(p),
                self.kept@ == old(self).kept@,
                old(self).read@.is_prefix_of(self.read@),
            decreases self.fuel(p),
        {
            let a_iv = match self.a.next_interval(p, Ghost(n)) {
                Some(iv) => iv,
                None => return None,
            };
            self.ensure_b(p, Ghost(n));
            self.skip(p, Ghost(n), a_iv);
            proof {
                let entry = (a_iv, self.b_current);
                lemma_related_push(self.kind, self.read@, entry);
                let read0 = self.read@;
                self.read = Ghost(read0.push(entry));
                if relation_holds(self.kind, a_iv, entry.1) {
                    self.kept = Ghost(self.kept@.push(a_iv));
                }
                assert(old(self).read@.is_prefix_of(self.read@)) by {
                    assert forall|i: int| 0 <= i < old(self).read@.len() implies self.read@[i] == old(self).read@[i] by {
                        assert(read0[i] == old(self).read@[i]);
                    }
                }
            }
            if match self.b_current { Some(b_iv) => !a_iv.contains(b_iv), None => true } {
                return Some(a_iv);
            }
        }
    }

    fn next_not_contained_by<P: TermPositions>(&mut self, p: &P, Ghost(n): Ghost<nat>) -> (r: Option<Interval>)
        requires
            old(self).wf(p, n),
            positions_ok(p, n),
            old(self).kind == RelationKind::NotContainedBy,
        ensures
            final(self).wf(p, n),
            final(self).depth() == old(self).depth(),
            final(self).kind == old(self).kind,
            final(self).fuel(p) <= old(self).fuel(p),
            r is Some ==> final(self).fuel(p) < old(self).fuel(p),
            le2(old(self).floor(p), final(self).floor(p)),
            r matches Some(iv) ==> ok_iv(iv) && le2(old(self).floor(p), iv) && final(self).floor(p) == iv
                && relation_holds(old(self).kind, iv, final(self).b_current),
            r is None ==> final(self).finished(p),
            old(self).finished(p) ==> r is None,
            old(self).started(p) ==> final(self).started(p),
            r is Some ==> final(self).started(p),
            starts_after(strict_positions(p, n) && old(self).started(p), old(self).floor(p), r),
            ends_after(strict_positions(p, n) && old(self).started(p), old(self).floor(p), r),
            final(self).kept() == match r {
                Some(iv) => old(self).kept().push(iv),
                None => old(self).kept(),
            },
            old(self).read().is_prefix_of(final(self).read()),
        decreases old(self).depth(), 2nat,
    {
        proof { self.lemma_depths(); }
        loop
            invariant
                self.wf(p, n),
                positions_ok(p, n),
                self.kind == old(self).kind,
                self.kind == RelationKind::NotContainedBy,
                self.depth() == old(self).depth(),
                self.a.depth() < self.depth(),
                self.b.depth() < self.depth(),
                self.fuel(p) <= old(self).fuel(p),
                le2(old(self).floor(p), self.floor(p)),
                old(self).finished(p) ==> self.finished(p),
                old(self).started(p) ==> self.started(p),
                self.kept@ == old(self).kept@,
                old(self).read@.is_prefix_of(self.read@),
            decreases self.fuel(p),
        {
            let a_iv = match self.a.next_interval(p, Ghost(n)) {
                Some(iv) => iv,
                None => return None,
            };
            self.ensure_b(p, Ghost(n));
            self.skip(p, Ghost(n), a_iv);
            proof {
                let entry = (a_iv, self.b_current);
                lemma_related_push(self.kind, self.read@, entry);
                let read0 = self.read@;
                self.read = Ghost(read0.push(entry));
                if relation_holds(self.kind, a_iv, entry.1) {
                    self.kept = Ghost(self.kept@.push(a_iv));
                }
                assert(old(self).read@.is_prefix_of(self.read@)) by {
                    assert forall|i: int| 0 <= i < old(self).read@.len() implies self.read@[i] == old(self).read@[i] by {
                        assert(read0[i] == old(self).read@[i]);
                    }
                }
            }
            if match self.b_current { Some(b_iv) => b_iv.start > a_iv.start, None => true } {
                return Some(a_iv);
            }
        }
    }

    fn next_overlapping<P: TermPositions>(&mut self, p: &P, Ghost(n): Ghost<nat>) -> (r: Option<Interval>)
        requires
            old(self).wf(p, n),
            positions_ok(p, n),
            old(self).kind == RelationKind::Overlapping,
        ensures
            final(self).wf(p, n),
            final(self).depth() == old(self).depth(),
            final(self).kind == old(self).kind,
            final(self).fuel(p) <= old(self).fuel(p),
            r is Some ==> final(self).fuel(p) < old(self).fuel(p),
            le2(old(self).floor(p), final(self).floor(p)),
            r matches Some(iv) ==> ok_iv(iv) && le2(old(self).floor(p), iv) && final(self).floor(p) == iv
                && relation_holds(old(self).kind, iv, final(self).b_current),
            r is None ==> final(self).finished(p),
            old(self).finished(p) ==> r is None,
            old(self).started(p) ==> final(self).started(p),
            r is Some ==> final(self).started(p),
            starts_after(strict_positions(p, n) && old(self).started(p), old(self).floor(p), r),
            ends_after(strict_positions(p, n) && old(self).started(p), old(self).floor(p), r),
            final(self).kept() == match r {
                Some(iv) => old(self).kept().push(iv),
                None => old(self).kept(),
            },
            old(self).read().is_prefix_of(final(self).read()),
        decreases old(self).depth(), 2nat,
    {
        proof { self.lemma_depths(); }
        loop
            invariant
                self.wf(p, n),
                positions_ok(p, n),
                self.kind == old(self).kind,
                self.kind == RelationKind::Overlapping,
                self.depth() == old(self).depth(),
                self.a.depth() < self.depth(),
                self.b.depth() < self.depth(),
                self.fuel(p) <= old(self).fuel(p),
                le2(old(self).floor(p), self.floor(p)),
                old(self).finished(p) ==> self.finished(p),
                old(self).started(p) ==> self.started(p),
                self.kept@ == old(self).kept@,
                old(self).read@.is_prefix_of(self.read@),
            decreases self.fuel(p),
        {
            let a_iv = match self.a.next_interval(p, Ghost(n)) {
                Some(iv) => iv,
                None => return None,
            };
            self.ensure_b(p, Ghost(n));
            self.skip(p, Ghost(n), a_iv);
            proof {
                let entry = (a_iv, self.b_current);
                lemma_related_push(self.kind, self.read@, entry);
                let read0 = self.read@;
                self.read = Ghost(read0.push(entry));
                if relation_holds(self.kind, a_iv, entry.1) {
                    self.kept = Ghost(self.kept@.push(a_iv));
                }
                assert(old(self).read@.is_prefix_of(self.read@)) by {
                    assert forall|i: int| 0 <= i < old(self).read@.len() implies self.read@[i] == old(self).read@[i] by {
                        assert(read0[i] == old(self).read@[i]);
                    }
                }
            }
            if match self.b_current { Some(b_iv) => b_iv.start <= a_iv.end, None => false } {
                return Some(a_iv);
            }
        }
    }

    fn next_non_overlapping<P: TermPositions>(&mut self, p: &P, Ghost(n): Ghost<nat>) -> (r: Option<Interval>)
        requires
            old(self).wf(p, n),
            positions_ok(p, n),
            old(self).kind == RelationKind::NonOverlapping,
        ensures
            final(self).wf(p, n),
            final(self).depth() == old(self).depth(),
            final(self).kind == old(self).kind,
            final(self).fuel(p) <= old(self).fuel(p),
            r is Some ==> final(self).fuel(p) < old(self).fuel(p),
            le2(old(self).floor(p), final(self).floor(p)),
            r matches Some(iv) ==> ok_iv(iv) && le2(old(self).floor(p), iv) && final(self).floor(p) == iv
                && relation_holds(old(self).kind, iv, final(self).b_current),
            r is None ==> final(self).finished(p),
            old(self).finished(p) ==> r is None,
            old(self).started(p) ==> final(self).started(p),
            r is Some ==> final(self).started(p),
            starts_after(strict_positions(p, n) && old(self).started(p), old(self).floor(p), r),
            ends_after(strict_positions(p, n) && old(self).started(p), old(self).floor(p), r),
            final(self).kept() == match r {
                Some(iv) => old(self).kept().push(iv),
                None => old(self).kept(),
            },
            old(self).read().is_prefix_of(final(self).read()),
        decreases old(self).depth(), 2nat,
    {
        proof { self.lemma_depths(); }
        loop
            invariant
                self.wf(p, n),
                positions_ok(p, n),
                self.kind == old(self).kind,
                self.kind == RelationKind::NonOverlapping,
                self.depth() == old(self).depth(),
                self.a.depth() < self.depth(),
                self.b.depth() < self.depth(),
                self.fuel(p) <= old(self).fuel(p),
                le2(old(self).floor(p), self.floor(p)),
                old(self).finished(p) ==> self.finished(p),
                old(self).started(p) ==> self.started(p),
                self.kept@ == old(self).kept@,
                old(self).read@.is_prefix_of(self.read@),
            decreases self.fuel(p),
        {
            let a_iv = match self.a.next_interval(p, Ghost(n)) {
                Some(iv) => iv,
                None => return None,
            };
            self.ensure_b(p, Ghost(n));
            self.skip(p, Ghost(n), a_iv);
            proof {
                let entry = (a_iv, self.b_current);
                lemma_related_push(self.kind, self.read@, entry);
                let read0 = self.read@;
                self.read = Ghost(read0.push(entry));
                if relation_holds(self.kind, a_iv, entry.1) {
                    self.kept = Ghost(self.kept@.push(a_iv));
                }
                assert(old(self).read@.is_prefix_of(self.read@)) by {
                    assert forall|i: int| 0 <= i < old(self).read@.len() implies self.read@[i] == old(self).read@[i] by {
                        assert(read0[i] == old(self).read@[i]);
                    }
                }
            }
            if match self.b_current { Some(b_iv) => b_iv.start > a_iv.end, None => true } {
                return Some(a_iv);
            }
        }
    }

    fn next_before<P: TermPositions>(&mut self, p: &P, Ghost(n): Ghost<nat>) -> (r: Option<Interval>)
        requires
            old(self).wf(p, n),
            positions_ok(p, n),
            old(self).kind == RelationKind::Before,
        ensures
            final(self).wf(p, n),
            final(self).depth() == old(self).depth(),
            final(self).kind == old(self).kind,
            final(self).fuel(p) <= old(self).fuel(p),
            r is Some ==> final(self).fuel(p) < old(self).fuel(p),
            le2(old(self).floor(p), final(self).floor(p)),
            r matches Some(iv) ==> ok_iv(iv) && le2(old(self).floor(p), iv) && final(self).floor(p) == iv
                && relation_holds(old(self).kind, iv, final(self).b_current),
            r is None ==> final(self).finished(p),
            old(self).finished(p) ==> r is None,
            old(self).started(p) ==> final(self).started(p),
            r is Some ==> final(self).started(p),
            starts_after(strict_positions(p, n) && old(self).started(p), old(self).floor(p), r),
            ends_after(strict_positions(p, n) && old(self).started(p), old(self).floor(p), r),
            final(self).kept() == match r {
                Some(iv) => old(self).kept().push(iv),
                None => old(self).kept(),
            },
            old(self).read().is_prefix_of(final(self).read()),
        decreases old(self).depth(), 2nat,
    {
        proof { self.lemma_depths(); }
        loop
            invariant
                self.wf(p, n),
                positions_ok(p, n),
                self.kind == old(self).kind,
                self.kind == RelationKind::Before,
                self.depth() == old(self).depth(),
                self.a.depth() < self.depth(),
                self.b.depth() < self.depth(),
                self.fuel(p) <= old(self).fuel(p),
                le2(old(self).floor(p), self.floor(p)),
                old(self).finished(p) ==> self.finished(p),
                old(self).started(p) ==> self.started(p),
                self.kept@ == old(self).kept@,
                old(self).read@.is_prefix_of(self.read@),
            decreases self.fuel(p),
        {
            let a_iv = match self.a.next_interval(p, Ghost(n)) {
                Some(iv) => iv,
                None => return None,
            };
            self.ensure_b(p, Ghost(n));
            self.skip(p, Ghost(n), a_iv);
            proof {
                let entry = (a_iv, self.b_current);
                lemma_related_push(self.kind, self.read@, entry);
                let read0 = self.read@;
                self.read = Ghost(read0.push(entry));
                if relation_holds(self.kind, a_iv, entry.1) {
                    self.kept = Ghost(self.kept@.push(a_iv));
                }
                assert(old(self).read@.is_prefix_of(self.read@)) by {
                    assert forall|i: int| 0 <= i < old(self).read@.len() implies self.read@[i] == old(self).read@[i] by {
                        assert(read0[i] == old(self).read@[i]);
                    }
                }
            }
            if self.b_current.is_some() {
                return Some(a_iv);
            }
        }
    }

    fn next_after<P: TermPositions>(&mut self, p: &P, Ghost(n): Ghost<nat>) -> (r: Option<Interval>)
        requires
            old(self).wf(p, n),
            positions_ok(p, n),
            old(self).kind == RelationKind::After,
        ensures
            final(self).wf(p, n),
            final(self).depth() == old(self).depth(),
            final(self).kind == old(self).kind,
            final(self).fuel(p) <= old(self).fuel(p),
            r is Some ==> final(self).fuel(p) < old(self).fuel(p),
            le2(old(self).floor(p), final(self).floor(p)),
            r matches Some(iv) ==> ok_iv(iv) && le2(old(self).floor(p), iv) && final(self).floor(p) == iv
                && relation_holds(old(self).kind, iv, final(self).b_current),
            r is None ==> final(self).finished(p),
            old(self).finished(p) ==> r is None,
            old(self).started(p) ==> final(self).started(p),
            r is Some ==> final(self).started(p),
            starts_after(strict_positions(p, n) && old(self).started(p), old(self).floor(p), r),
            ends_after(strict_positions(p, n) && old(self).started(p), old(self).floor(p), r),
            final(self).kept() == match r {
                Some(iv) => old(self).kept().push(iv),
                None => old(self).kept(),
            },
            old(self).read().is_prefix_of(final(self).read()),
        decreases old(self).depth(), 2nat,
    {
        proof { self.lemma_depths(); }
        loop
            invariant
                self.wf(p, n),
                positions_ok(p, n),
                self.kind == old(self).kind,
                self.kind == RelationKind::After,
                self.depth() == old(self).depth(),
                self.a.depth() < self.depth(),
                self.b.depth() < self.depth(),
                self.fuel(p) <= old(self).fuel(p),
                le2(old(self).floor(p), self.floor(p)),
                old(self).finished(p) ==> self.finished(p),
                old(self).started(p) ==> self.started(p),
                self.kept@ == old(self).kept@,
                old(self).read@.is_prefix_of(self.read@),
            decreases self.fuel(p),
        {
            let a_iv = match self.a.next_interval(p, Ghost(n)) {
                Some(iv) => iv,
                None => return None,
            };
            let b_now = self.ensure_b(p, Ghost(n));
            proof {
                let entry = (a_iv, self.b_current);
                lemma_related_push(self.kind, self.read@, entry);
                let read0 = self.read@;
                self.read = Ghost(read0.push(entry));
                if relation_holds(self.kind, a_iv, entry.1) {
                    self.kept = Ghost(self.kept@.push(a_iv));
                }
                assert(old(self).read@.is_prefix_of(self.read@)) by {
                    assert forall|i: int| 0 <= i < old(self).read@.len() implies self.read@[i] == old(self).read@[i] by {
                        assert(read0[i] == old(self).read@[i]);
                    }
                }
            }
            let first_b = match b_now {
                Some(b) => b,
                None => return None,
            };
            if first_b.start < a_iv.start {
                return Some(a_iv);
            }
        }
    }

    proof fn lemma_depths(&self)
        ensures
            self.a.depth() < self.depth(),
            self.b.depth() < self.depth(),
    {
    }

    fn next_interval<P: TermPositions>(&mut self, p: &P, Ghost(n): Ghost<nat>) -> (r: Option<Interval>)
        requires
            old(self).wf(p, n),
            positions_ok(p, n),
        ensures
            final(self).wf(p, n),
            final(self).depth() == old(self).depth(),
            final(self).kind == old(self).kind,
            final(self).fuel(p) <= old(self).fuel(p),
            r is Some ==> final(self).fuel(p) < old(self).fuel(p),
            le2(old(self).floor(p), final(self).floor(p)),
            r matches Some(iv) ==> ok_iv(iv) && le2(old(self).floor(p), iv) && final(self).floor(p) == iv
                && relation_holds(old(self).kind, iv, final(self).b_current),
            r is None ==> final(self).finished(p),
            old(self).finished(p) ==> r is None,
            old(self).started(p) ==> final(self).started(p),
            r is Some ==> final(self).started(p),
            starts_after(strict_positions(p, n) && old(self).started(p), old(self).floor(p), r),
            ends_after(strict_positions(p, n) && old(self).started(p), old(self).floor(p), r),
            final(self).kept() == related_of(final(self).spec_kind(), final(self).read()),
            final(self).kept() == match r {
                Some(iv) => old(self).kept().push(iv),
                None => old(self).kept(),
            },
            old(self).read().is_prefix_of(final(self).read()),
        decreases old(self).depth(), 3nat,
    {
        match self.kind {
            RelationKind::Containing => self.next_containing(p, Ghost(n)),
            RelationKind::ContainedBy => self.next_contained_by(p, Ghost(n)),
            RelationKind::NotContaining => self.next_not_containing(p, Ghost(n)),
            RelationKind::NotContainedBy => self.next_not_contained_by(p, Ghost(n)),
            RelationKind::Overlapping => self.next_overlapping(p, Ghost(n)),
            RelationKind::NonOverlapping => self.next_non_overlapping(p, Ghost(n)),
            RelationKind::Before => self.next_before(p, Ghost(n)),
            RelationKind::After => self.next_after(p, Ghost(n)),
        }
    }

    fn gaps(&self) -> (r: Option<u64>)
        ensures
            r == self.spec_gaps(),
        decreases self.depth(), 0nat,
    {
        self.a.gaps()
    }
}

// ---------------------------------------------------------------- sums over children

/// The fuel a child contributes, plus one when the parent holds one of its
/// intervals aside.
pub open spec fn child_fuel(f: nat, held: bool) -> nat {
    f + if held { 1nat } else { 0nat }
}

/// Total fuel of the first `k` children.
pub open spec fn fuel_sum<P: TermPositions>(ch: Seq<NodeState>, held: Seq<bool>, p: &P, k: int) -> nat
    decreases ch, k,
{
    if k <= 0 || k > ch.len() {
        0
    } else {
        fuel_sum(ch, held, p, k - 1) + child_fuel(ch[k - 1].fuel(p), held[k - 1])
    }
}

/// Changing one child's contribution changes the total by the same amount.
pub proof fn lemma_fuel_sum_update<P: TermPositions>(
    ch: Seq<NodeState>,
    held: Seq<bool>,
    ch2: Seq<NodeState>,
    held2: Seq<bool>,
    p: &P,
    i: int,
    k: int,
)
    requires
        0 <= i,
        k <= ch.len(),
        ch2.len() == ch.len(),
        forall|j: int| 0 <= j < k && j != i ==> child_fuel(ch2[j].fuel(p), held2[j]) == child_fuel(ch[j].fuel(p), held[j]),
    ensures
        i < k ==> fuel_sum(ch2, held2, p, k) + child_fuel(ch[i].fuel(p), held[i])
            == fuel_sum(ch, held, p, k) + child_fuel(ch2[i].fuel(p), held2[i]),
        i >= k ==> fuel_sum(ch2, held2, p, k) == fuel_sum(ch, held, p, k),
    decreases k,
{
    if k > 0 {
        lemma_fuel_sum_update(ch, held, ch2, held2, p, i, k - 1);
    }
}

/// Greatest depth among the first `k` children.
pub open spec fn max_depth(ch: Seq<NodeState>, k: int) -> nat
    decreases ch, k,
{
    if k <= 0 || k > ch.len() {
        0
    } else {
        let d = max_depth(ch, k - 1);
        if ch[k - 1].depth() > d { ch[k - 1].depth() } else { d }
    }
}

/// Every child is no deeper than the greatest depth.
pub proof fn lemma_max_depth_bounds(ch: Seq<NodeState>, k: int)
    requires
        k <= ch.len(),
    ensures
        forall|j: int| 0 <= j < k ==> #[trigger] ch[j].depth() <= max_depth(ch, k),
    decreases k,
{
    if k > 0 {
        lemma_max_depth_bounds(ch, k - 1);
    }
}

/// Children of unchanged depths keep the greatest depth.
pub proof fn lemma_max_depth_same(ch: Seq<NodeState>, ch2: Seq<NodeState>, k: int)
    requires
        k <= ch.len(),
        ch2.len() == ch.len(),
        forall|j: int| 0 <= j < k ==> #[trigger] ch2[j].depth() == ch[j].depth(),
    ensures
        max_depth(ch2, k) == max_depth(ch, k),
    decreases k,
{
    if k > 0 {
        lemma_max_depth_same(ch, ch2, k - 1);
        assert(ch2[k - 1].depth() == ch[k - 1].depth());
    }
}

/// Whether each slot holds an interval.
pub open spec fn held_of(s: Seq<Option<Interval>>) -> Seq<bool> {
    s.map_values(|o: Option<Interval>| o is Some)
}

// ---------------------------------------------------------------- disjunction

/// Disjunction node: merges the children's streams by smallest end (ties
/// to the longer interval) and drops every interval that contains the
/// previously produced one.
pub struct OrState {
    children: Vec<NodeState>,
    current: Vec<Option<Interval>>,
    prev: Option<Interval>,
    last_gaps: Option<u64>,
    /// For each child, the intervals it returned since the last reset.
    returned: Ghost<Seq<Seq<Interval>>>,
    /// For each child, the gap count it reported with each interval it
    /// returned, in the same order.
    reported: Ghost<Seq<Seq<Option<u64>>>>,
    /// The intervals the node produced since the last reset.
    emitted: Ghost<Seq<Interval>>,
}

/// The gap record after child `k` returned `nx` and then reported `g`.
pub open spec fn record_gaps(gs: Seq<Seq<Option<u64>>>, k: int, nx: Option<Interval>, g: Option<u64>) -> Seq<Seq<Option<u64>>> {
    match nx {
        Some(_) => gs.update(k, gs[k].push(g)),
        None => gs,
    }
}

/// The gap record lines up with the record of returned intervals, and the
/// gap count recorded with a held interval is the one its child still
/// reports.
pub open spec fn gaps_rel(seen: Seq<Seq<Interval>>, gs: Seq<Seq<Option<u64>>>, cur: Seq<Option<Interval>>, ch: Seq<NodeState>) -> bool {
    &&& seen.len() == ch.len() && gs.len() == ch.len() && cur.len() == ch.len()
    &&& forall|k: int| 0 <= k < ch.len() ==> (#[trigger] gs[k]).len() == seen[k].len()
    &&& forall|k: int| 0 <= k < ch.len() && (#[trigger] cur[k]) is Some
        ==> gs[k].len() > 0 && gs[k].last() == ch[k].spec_gaps()
}

/// Some child returned `iv` and reported the gap count `g` with it.
pub open spec fn reported_with(seen: Seq<Seq<Interval>>, gs: Seq<Seq<Option<u64>>>, iv: Interval, g: Option<u64>) -> bool {
    exists|k: int, j: int| 0 <= k < seen.len() && k < gs.len() && 0 <= j < seen[k].len() && j < gs[k].len()
        && #[trigger] seen[k][j] == iv && gs[k][j] == g
}

/// Child `k` returning `nx` and reporting its new gap count keeps the gap
/// record in line.
proof fn lemma_gaps_return(seen: Seq<Seq<Interval>>, gs: Seq<Seq<Option<u64>>>, cur: Seq<Option<Interval>>,
    ch: Seq<NodeState>, k: int, nx: Option<Interval>, c: NodeState)
    requires
        gaps_rel(seen, gs, cur, ch),
        0 <= k < ch.len(),
    ensures
        gaps_rel(record_return(seen, k, nx), record_gaps(gs, k, nx, c.spec_gaps()), cur.update(k, nx), ch.update(k, c)),
        forall|iv: Interval, g: Option<u64>| reported_with(seen, gs, iv, g)
            ==> #[trigger] reported_with(record_return(seen, k, nx), record_gaps(gs, k, nx, c.spec_gaps()), iv, g),
{
    let seen2 = record_return(seen, k, nx);
    let gs2 = record_gaps(gs, k, nx, c.spec_gaps());
    let cur2 = cur.update(k, nx);
    let ch2 = ch.update(k, c);
    assert forall|l: int| 0 <= l < ch2.len() implies (#[trigger] gs2[l]).len() == seen2[l].len() by {
        assert(gs[l].len() == seen[l].len());
    }
    assert forall|l: int| 0 <= l < ch2.len() && (#[trigger] cur2[l]) is Some
        implies gs2[l].len() > 0 && gs2[l].last() == ch2[l].spec_gaps() by {
        if l != k {
            assert(cur[l] is Some);
        }
    }
    assert forall|iv: Interval, g: Option<u64>| reported_with(seen, gs, iv, g)
        implies #[trigger] reported_with(seen2, gs2, iv, g) by {
        let (l, j) = choose|l: int, j: int| 0 <= l < seen.len() && l < gs.len() && 0 <= j < seen[l].len() && j < gs[l].len()
            && #[trigger] seen[l][j] == iv && gs[l][j] == g;
        assert(seen2[l][j] == seen[l][j] && gs2[l][j] == gs[l][j]);
    }
}

/// A held interval was returned with the gap count its child still reports.
proof fn lemma_gaps_held(seen: Seq<Seq<Interval>>, gs: Seq<Seq<Option<u64>>>, cur: Seq<Option<Interval>>,
    ch: Seq<NodeState>, k: int)
    requires
        gaps_rel(seen, gs, cur, ch),
        0 <= k < ch.len(),
        cur[k] is Some,
        seen[k].len() > 0,
        seen[k].last() == cur[k]->0,
    ensures
        reported_with(seen, gs, cur[k]->0, ch[k].spec_gaps()),
{
    let j = seen[k].len() - 1;
    assert(gs[k].len() == seen[k].len());
    assert(seen[k][j] == cur[k]->0);
}

/// `x` contains (or equals) one of the intervals of `em`.
pub open spec fn covers_some(em: Seq<Interval>, x: Interval) -> bool {
    exists|i: int| 0 <= i < em.len() && spec_contains(x, #[trigger] em[i])
}

/// How many of the intervals child `k` returned the node has taken up: all
/// of them but the one it still holds.
pub open spec fn taken(seen: Seq<Seq<Interval>>, cur: Seq<Option<Interval>>, k: int) -> int {
    if cur[k] is Some { seen[k].len() - 1 } else { seen[k].len() as int }
}

/// `e` is an interval some child returned.
pub open spec fn returned_by_child(seen: Seq<Seq<Interval>>, e: Interval) -> bool {
    exists|k: int, j: int| 0 <= k < seen.len() && 0 <= j < seen[k].len() && #[trigger] seen[k][j] == e
}

/// `e` is an interval some child returned and the node has taken up.
pub open spec fn taken_from_child(seen: Seq<Seq<Interval>>, cur: Seq<Option<Interval>>, e: Interval) -> bool {
    exists|k: int, j: int| 0 <= k < seen.len() && 0 <= j < taken(seen, cur, k) && #[trigger] seen[k][j] == e
}

/// The record of a disjunction: the held slot of each child is the last
/// interval that child returned; every interval taken up was produced or
/// contains a produced one; every produced interval was taken up.
#[verifier::opaque]
pub open spec fn or_trace(seen: Seq<Seq<Interval>>, cur: Seq<Option<Interval>>, em: Seq<Interval>) -> bool {
    &&& seen.len() == cur.len()
    &&& forall|k: int| 0 <= k < cur.len() ==> (#[trigger] cur[k] is Some ==> seen[k].len() > 0 && seen[k].last() == cur[k]->0)
    &&& forall|k: int, j: int| 0 <= k < cur.len() && 0 <= j < taken(seen, cur, k) ==> covers_some(em, #[trigger] seen[k][j])
    &&& forall|i: int| 0 <= i < em.len() ==> taken_from_child(seen, cur, #[trigger] em[i])
}

/// The record after child `k` returned `nx`.
pub open spec fn record_return(seen: Seq<Seq<Interval>>, k: int, nx: Option<Interval>) -> Seq<Seq<Interval>> {
    match nx {
        Some(x) => seen.update(k, seen[k].push(x)),
        None => seen,
    }
}

/// Filling an empty slot takes nothing up.
proof fn lemma_or_trace_fill(seen: Seq<Seq<Interval>>, cur: Seq<Option<Interval>>, em: Seq<Interval>, k: int, nx: Option<Interval>)
    requires
        or_trace(seen, cur, em),
        0 <= k < cur.len(),
        cur[k] is None,
    ensures
        or_trace(record_return(seen, k, nx), cur.update(k, nx), em),
{
    reveal(or_trace);
    let seen2 = record_return(seen, k, nx);
    let cur2 = cur.update(k, nx);
    assert forall|l: int| 0 <= l < cur2.len() implies taken(seen2, cur2, l) == taken(seen, cur, l)
        && forall|j: int| 0 <= j < taken(seen, cur, l) ==> #[trigger] seen2[l][j] == seen[l][j] by {
        if l == k {
            assert(cur[l] is None);
        }
    }
    assert forall|l: int, j: int| 0 <= l < cur2.len() && 0 <= j < taken(seen2, cur2, l)
        implies covers_some(em, #[trigger] seen2[l][j]) by {
        assert(seen2[l][j] == seen[l][j]);
        assert(covers_some(em, seen[l][j]));
    }
    assert forall|i: int| 0 <= i < em.len() implies taken_from_child(seen2, cur2, #[trigger] em[i]) by {
        assert(taken_from_child(seen, cur, em[i]));
        let (l, j) = choose|l: int, j: int| 0 <= l < seen.len() && 0 <= j < taken(seen, cur, l) && #[trigger] seen[l][j] == em[i];
        assert(seen2[l][j] == seen[l][j]);
    }
}

/// Taking up the held interval of child `k`, which then returned `nx`:
/// either the interval is produced, or it contains a produced one.
#[verifier::rlimit(40)]
#[verifier::spinoff_prover]
proof fn lemma_or_trace_take(seen: Seq<Seq<Interval>>, cur: Seq<Option<Interval>>, em: Seq<Interval>, k: int,
    nx: Option<Interval>, emit: bool)
    requires
        or_trace(seen, cur, em),
        0 <= k < cur.len(),
        cur[k] is Some,
        !emit ==> covers_some(em, cur[k]->0),
    ensures
        or_trace(record_return(seen, k, nx), cur.update(k, nx), if emit { em.push(cur[k]->0) } else { em }),
{
    reveal(or_trace);
    let x = cur[k]->0;
    let seen2 = record_return(seen, k, nx);
    let cur2 = cur.update(k, nx);
    let em2 = if emit { em.push(x) } else { em };
    assert(seen[k].len() > 0 && seen[k].last() == x);
    let t = taken(seen, cur, k);
    assert(taken(seen2, cur2, k) == t + 1);
    assert(seen2[k][t] == x);
    assert(covers_some(em2, x)) by {
        if emit {
            assert(em2[em.len() as int] == x);
        } else {
            let i = choose|i: int| 0 <= i < em.len() && spec_contains(x, #[trigger] em[i]);
            assert(em2[i] == em[i]);
        }
    }
    assert forall|l: int, j: int| 0 <= l < cur2.len() && 0 <= j < taken(seen2, cur2, l)
        implies covers_some(em2, #[trigger] seen2[l][j]) by {
        if !(l == k && j == t) {
            assert(seen2[l][j] == seen[l][j]);
            assert(covers_some(em, seen[l][j]));
            let i = choose|i: int| 0 <= i < em.len() && spec_contains(seen[l][j], #[trigger] em[i]);
            assert(em2[i] == em[i]);
        }
    }
    assert forall|i: int| 0 <= i < em2.len() implies taken_from_child(seen2, cur2, #[trigger] em2[i]) by {
        if i < em.len() {
            assert(em2[i] == em[i]);
            assert(taken_from_child(seen, cur, em[i]));
            let (l, j) = choose|l: int, j: int| 0 <= l < seen.len() && 0 <= j < taken(seen, cur, l) && #[trigger] seen[l][j] == em[i];
            assert(seen2[l][j] == seen[l][j]);
        } else {
            assert(em2[i] == x);
        }
    }
}

/// The interval a child's slot holds is the last one that child returned.
proof fn lemma_or_trace_held(seen: Seq<Seq<Interval>>, cur: Seq<Option<Interval>>, em: Seq<Interval>, k: int)
    requires
        or_trace(seen, cur, em),
        0 <= k < cur.len(),
        cur[k] is Some,
    ensures
        seen[k].len() > 0,
        seen[k].last() == cur[k]->0,
{
    reveal(or_trace);
}

/// What the record says of the streams: every produced interval is one a
/// child returned, and once no slot is held, every interval a child
/// returned was produced or contains a produced one.
proof fn lemma_or_trace_law(seen: Seq<Seq<Interval>>, cur: Seq<Option<Interval>>, em: Seq<Interval>)
    requires
        or_trace(seen, cur, em),
    ensures
        forall|i: int| 0 <= i < em.len() ==> returned_by_child(seen, #[trigger] em[i]),
        (forall|k: int| 0 <= k < cur.len() ==> cur[k] is None) ==> forall|k: int, j: int| 0 <= k < seen.len()
            && 0 <= j < seen[k].len() ==> covers_some(em, #[trigger] seen[k][j]),
{
    reveal(or_trace);
    assert forall|i: int| 0 <= i < em.len() implies returned_by_child(seen, #[trigger] em[i]) by {
        assert(taken_from_child(seen, cur, em[i]));
        let (k, j) = choose|k: int, j: int| 0 <= k < seen.len() && 0 <= j < taken(seen, cur, k) && #[trigger] seen[k][j] == em[i];
        assert(seen[k][j] == em[i]);
    }
    if forall|k: int| 0 <= k < cur.len() ==> cur[k] is None {
        assert forall|k: int, j: int| 0 <= k < seen.len() && 0 <= j < seen[k].len()
            implies covers_some(em, #[trigger] seen[k][j]) by {
            assert(cur[k] is None);
            assert(taken(seen, cur, k) == seen[k].len());
        }
    }
}

impl OrState {
    pub closed spec fn wf<P: TermPositions>(&self, p: &P, n: nat) -> bool
        decreases self,
    {
        let ch = self.children@;
        let cur = self.current@;
        &&& ch.len() == cur.len()
        &&& self.trace_ok()
        &&& self.gaps_ok()
        &&& forall|k: int| 0 <= k < ch.len() ==> (#[trigger] ch[k]).wf(p, n)
        &&& forall|k: int| 0 <= k < ch.len() && (#[trigger] cur[k]) is Some ==> ok_iv(cur[k]->0) && cur[k]->0 == ch[k].floor(p)
        &&& forall|k: int| 0 <= k < ch.len() && (#[trigger] cur[k]) is None && self.prev is Some ==> ch[k].finished(p)
        &&& self.prev matches Some(pv) ==> ok_iv(pv)
            && forall|k: int| 0 <= k < ch.len() && cur[k] is Some ==> (#[trigger] cur[k])->0.end >= pv.end
        &&& forall|k: int| 0 <= k < ch.len() && (#[trigger] cur[k]) is Some ==> ch[k].started(p)
        &&& strict_positions(p, n) ==> (self.prev matches Some(pv) ==> forall|k: int| 0 <= k < ch.len()
            && (#[trigger] cur[k]) is Some ==> cur[k]->0.end > pv.end
                || (cur[k]->0.end == pv.end && cur[k]->0.start <= pv.start))
    }

    pub closed spec fn fuel<P: TermPositions>(&self, p: &P) -> nat
        decreases self, 0nat,
    {
        fuel_sum(self.children@, held_of(self.current@), p, self.children@.len() as int)
    }

    /// The record of what the children returned and the node produced
    /// holds, and the last produced interval is the one kept to compare.
    #[verifier::opaque]
    pub closed spec fn trace_ok(&self) -> bool {
        &&& or_trace(self.returned@, self.current@, self.emitted@)
        &&& self.prev == if self.emitted@.len() == 0 { None } else { Some(self.emitted@.last()) }
    }

    proof fn lemma_trace_open(&self)
        requires
            self.trace_ok(),
        ensures
            or_trace(self.returned@, self.current@, self.emitted@),
            self.prev == if self.emitted@.len() == 0 { None } else { Some(self.emitted@.last()) },
    {
        reveal(OrState::trace_ok);
    }

    proof fn lemma_trace_close(&self)
        requires
            or_trace(self.returned@, self.current@, self.emitted@),
            self.prev == if self.emitted@.len() == 0 { None } else { Some(self.emitted@.last()) },
        ensures
            self.trace_ok(),
    {
        reveal(OrState::trace_ok);
    }

    /// The gap record lines up with what the children returned and report.
    #[verifier::opaque]
    pub closed spec fn gaps_ok(&self) -> bool {
        gaps_rel(self.returned@, self.reported@, self.current@, self.children@)
    }

    proof fn lemma_gaps_open(&self)
        requires
            self.gaps_ok(),
        ensures
            gaps_rel(self.returned@, self.reported@, self.current@, self.children@),
    {
        reveal(OrState::gaps_ok);
    }

    proof fn lemma_gaps_close(&self)
        requires
            gaps_rel(self.returned@, self.reported@, self.current@, self.children@),
        ensures
            self.gaps_ok(),
    {
        reveal(OrState::gaps_ok);
    }

    /// For each child, the gap count it reported with each interval it
    /// returned since the last reset.
    pub closed spec fn reported(&self) -> Seq<Seq<Option<u64>>> {
        self.reported@
    }

    /// What each child returned since the last reset.
    pub closed spec fn returned(&self) -> Seq<Seq<Interval>> {
        self.returned@
    }

    /// What the node produced since the last reset.
    pub closed spec fn emitted(&self) -> Seq<Interval> {
        self.emitted@
    }

    pub closed spec fn shape(&self, n: nat) -> bool
        decreases self,
    {
        &&& self.children@.len() == self.current@.len()
        &&& forall|k: int| 0 <= k < self.children@.len() ==> (#[trigger] self.children@[k]).shape(n)
    }

    proof fn lemma_wf_shape<P: TermPositions>(&self, p: &P, n: nat)
        requires
            self.wf(p, n),
        ensures
            self.shape(n),
        decreases self,
    {
        assert forall|k: int| 0 <= k < self.children@.len() implies (#[trigger] self.children@[k]).shape(n) by {
            self.children@[k].lemma_wf_shape(p, n);
        }
    }

    pub closed spec fn floor<P: TermPositions>(&self, p: &P) -> Interval {
        match self.prev {
            Some(iv) => iv,
            None => origin(),
        }
    }

    pub closed spec fn finished<P: TermPositions>(&self, p: &P) -> bool
        decreases self,
    {
        forall|k: int| 0 <= k < self.children@.len() ==> self.current@[k] is None && (#[trigger] self.children@[k]).finished(p)
    }

    pub closed spec fn depth(&self) -> nat
        decreases self, 0nat,
    {
        max_depth(self.children@, self.children@.len() as int) + 1
    }

    pub closed spec fn spec_gaps(&self) -> Option<u64> {
        self.last_gaps
    }

    /// An interval has been produced since the last reset.
    pub closed spec fn started<P: TermPositions>(&self, p: &P) -> bool {
        self.prev is Some
    }

    /// The slot holding the smallest interval: smallest end, and among
    /// equal ends the largest start.
    fn min_child(&self) -> (r: Option<(usize, Interval)>)
        requires
            self.children@.len() == self.current@.len(),
        ensures
            r is None <==> forall|k: int| 0 <= k < self.current@.len() ==> self.current@[k] is None,
            r matches Some((i, iv)) ==> i < self.current@.len() && self.current@[i as int] == Some(iv)
                && forall|k: int| 0 <= k < self.current@.len() && self.current@[k] is Some ==>
                    (#[trigger] self.current@[k])->0.end > iv.end
                    || ((self.current@[k])->0.end == iv.end && (self.current@[k])->0.start <= iv.start),
    {
        let mut best: Option<(usize, Interval)> = None;
        let mut i: usize = 0;
        while i < self.current.len()
            invariant
                i <= self.current@.len(),
                best is None <==> forall|k: int| 0 <= k < i ==> self.current@[k] is None,
                best matches Some((b, biv)) ==> b < i && self.current@[b as int] == Some(biv)
                    && forall|k: int| 0 <= k < i && self.current@[k] is Some ==>
                        (#[trigger] self.current@[k])->0.end > biv.end
                        || ((self.current@[k])->0.end == biv.end && (self.current@[k])->0.start <= biv.start),
            decreases self.current@.len() - i,
        {
            match self.current[i] {
                Some(iv) => {
                    let is_better = match best {
                        None => true,
                        Some((_, b)) => iv.end < b.end || (iv.end == b.end && iv.start > b.start),
                    };
                    if is_better {
                        best = Some((i, iv));
                    }
                },
                None => {},
            }
            i += 1;
        }
        best
    }

    proof fn lemma_child_depths(&self)
        ensures
            forall|k: int| 0 <= k < self.children@.len() ==> #[trigger] self.children@[k].depth() < self.depth(),
    {
        lemma_max_depth_bounds(self.children@, self.children@.len() as int);
    }

    #[verifier::rlimit(40)]
    #[verifier::spinoff_prover]
    fn next_interval<P: TermPositions>(&mut self, p: &P, Ghost(n): Ghost<nat>) -> (r: Option<Interval>)
        requires
            old(self).wf(p, n),
            positions_ok(p, n),
        ensures
            final(self).wf(p, n),
            final(self).depth() == old(self).depth(),
            final(self).fuel(p) <= old(self).fuel(p),
            r is Some ==> final(self).fuel(p) < old(self).fuel(p),
            le2(old(self).floor(p), final(self).floor(p)),
            r matches Some(iv) ==> ok_iv(iv) && le2(old(self).floor(p), iv) && final(self).floor(p) == iv,
            r is None ==> final(self).finished(p),
            old(self).finished(p) ==> r is None,
            old(self).started(p) ==> final(self).started(p),
            r is Some ==> final(self).started(p),
            starts_after(strict_positions(p, n) && old(self).started(p), old(self).floor(p), r),
            ends_after(strict_positions(p, n) && old(self).started(p), old(self).floor(p), r),
            final(self).emitted() == match r {
                Some(iv) => old(self).emitted().push(iv),
                None => old(self).emitted(),
            },
            r is None ==> forall|k: int, j: int| 0 <= k < final(self).returned().len()
                && 0 <= j < final(self).returned()[k].len() ==> covers_some(final(self).emitted(), #[trigger] final(self).returned()[k][j]),
            forall|i: int| 0 <= i < final(self).emitted().len()
                ==> returned_by_child(final(self).returned(), #[trigger] final(self).emitted()[i]),
            r matches Some(iv) ==> reported_with(final(self).returned(), final(self).reported(), iv, final(self).spec_gaps()),
        decreases old(self).depth(), 0nat,
    {
        proof { self.lemma_child_depths(); }
        let len = self.children.len();
        let ghost d = self.depth();
        let ghost old_ch = self.children@;
        let mut i: usize = 0;
        while i < len
            invariant
                len == self.children@.len(),
                i <= len,
                self.wf(p, n),
                positions_ok(p, n),
                self.prev == old(self).prev,
                self.emitted@ == old(self).emitted@,
                self.depth() == d,
                d == old(self).depth(),
                forall|k: int| 0 <= k < len ==> #[trigger] self.children@[k].depth() < d,
                self.fuel(p) <= old(self).fuel(p),
                forall|k: int| 0 <= k < i ==> (#[trigger] self.current@[k]) is None ==> self.children@[k].finished(p),
                old(self).finished(p) ==> forall|k: int| 0 <= k < len ==> (#[trigger] self.current@[k]) is None && self.children@[k].finished(p),
            decreases len - i,
        {
            if self.current[i].is_none() {
                let ghost ch0 = self.children@;
                let ghost cur0 = self.current@;
                let ghost seen0 = self.returned@;
                let ghost gs0 = self.reported@;
                proof {
                    self.lemma_trace_open();
                    self.lemma_gaps_open();
                }
                let nx = self.children[i].next_interval(p, Ghost(n));
                proof {
                    lemma_or_trace_fill(self.returned@, cur0, self.emitted@, i as int, nx);
                    lemma_gaps_return(seen0, gs0, cur0, ch0, i as int, nx, self.children@[i as int]);
                    assert(self.children@ == ch0.update(i as int, self.children@[i as int]));
                    self.returned = Ghost(record_return(seen0, i as int, nx));
                    self.reported = Ghost(record_gaps(gs0, i as int, nx, self.children@[i as int].spec_gaps()));
                }
                self.current.set(i, nx);
                proof {
                    self.lemma_trace_close();
                    self.lemma_gaps_close();
                    lemma_fuel_sum_update(ch0, held_of(cur0), self.children@, held_of(self.current@), p, i as int, len as int);
                    lemma_max_depth_same(ch0, self.children@, len as int);
                }
            }
            i += 1;
        }
        let ghost start_fuel = old(self).fuel(p);
        loop
            invariant
                len == self.children@.len(),
                self.wf(p, n),
                positions_ok(p, n),
                self.prev == old(self).prev,
                self.emitted@ == old(self).emitted@,
                self.depth() == d,
                d == old(self).depth(),
                forall|k: int| 0 <= k < len ==> #[trigger] self.children@[k].depth() < d,
                self.fuel(p) <= start_fuel,
                start_fuel == old(self).fuel(p),
                forall|k: int| 0 <= k < len ==> (#[trigger] self.current@[k]) is None ==> self.children@[k].finished(p),
                old(self).finished(p) ==> forall|k: int| 0 <= k < len ==> (#[trigger] self.current@[k]) is None,
            decreases self.fuel(p),
        {
            let (min_idx, min_iv) = match self.min_child() {
                Some(x) => x,
                None => {
                    proof {
                        self.lemma_trace_open();
                        lemma_or_trace_law(self.returned@, self.current@, self.emitted@);
                    }
                    return None;
                },
            };
            let min_gaps = self.children[min_idx].gaps();
            let ghost ch0 = self.children@;
            let ghost cur0 = self.current@;
            let ghost seen0 = self.returned@;
            let ghost em0 = self.emitted@;
            let ghost gs0 = self.reported@;
            proof {
                self.lemma_trace_open();
                self.lemma_gaps_open();
                lemma_or_trace_held(seen0, cur0, em0, min_idx as int);
                lemma_gaps_held(seen0, gs0, cur0, ch0, min_idx as int);
            }
            let nx = self.children[min_idx].next_interval(p, Ghost(n));
            let skip = match self.prev {
                Some(prev) => min_iv.contains(prev),
                None => false,
            };
            proof {
                if skip {
                    assert(spec_contains(min_iv, em0[em0.len() - 1]));
                    assert(covers_some(em0, cur0[min_idx as int]->0));
                }
                lemma_or_trace_take(seen0, cur0, em0, min_idx as int, nx, !skip);
                lemma_gaps_return(seen0, gs0, cur0, ch0, min_idx as int, nx, self.children@[min_idx as int]);
                assert(self.children@ == ch0.update(min_idx as int, self.children@[min_idx as int]));
                self.returned = Ghost(record_return(seen0, min_idx as int, nx));
                self.reported = Ghost(record_gaps(gs0, min_idx as int, nx, self.children@[min_idx as int].spec_gaps()));
                assert(reported_with(self.returned@, self.reported@, min_iv, min_gaps));
                if !skip {
                    self.emitted = Ghost(em0.push(min_iv));
                }
            }
            self.current.set(min_idx, nx);
            proof {
                lemma_fuel_sum_update(ch0, held_of(cur0), self.children@, held_of(self.current@), p, min_idx as int, len as int);
                lemma_max_depth_same(ch0, self.children@, len as int);
                self.lemma_gaps_close();
            }
            if skip {
                proof {
                    self.lemma_trace_close();
                }
                continue;
            }
            let ghost before_emit = *self;
            self.prev = Some(min_iv);
            self.last_gaps = min_gaps;
            proof {
                before_emit.lemma_gaps_open();
                self.lemma_gaps_close();
                self.lemma_trace_close();
                lemma_or_trace_law(self.returned@, self.current@, self.emitted@);
            }
            return Some(min_iv);
        }
    }

    fn gaps(&self) -> (r: Option<u64>)
        ensures
            r == self.spec_gaps(),
    {
        self.last_gaps
    }

    fn reset<P: TermPositions>(&mut self, p: &P, Ghost(n): Ghost<nat>)
        requires
            old(self).shape(n),
        ensures
            final(self).wf(p, n),
            final(self).shape(n),
            final(self).depth() == old(self).depth(),
            final(self).floor(p) == origin(),
        decreases old(self).depth(), 0nat,
    {
        proof { self.lemma_child_depths(); }
        let len = self.children.len();
        let ghost d = self.depth();
        let mut i: usize = 0;
        while i < len
            invariant
                len == self.children@.len(),
                len == self.current@.len(),
                i <= len,
                forall|k: int| 0 <= k < len ==> (#[trigger] self.children@[k]).shape(n),
                forall|k: int| 0 <= k < i ==> (#[trigger] self.children@[k]).wf(p, n),
                forall|k: int| 0 <= k < i ==> (#[trigger] self.current@[k]) is None,
                forall|k: int| 0 <= k < len ==> (#[trigger] self.children@[k]).depth() < d,
                max_depth(self.children@, len as int) + 1 == d,
                d == old(self).depth(),
            decreases len - i,
        {
            let ghost ch0 = self.children@;
            self.children[i].reset(p, Ghost(n));
            self.current.set(i, None);
            proof {
                lemma_max_depth_same(ch0, self.children@, len as int);
            }
            i += 1;
        }
        self.prev = None;
        self.last_gaps = None;
        proof {
            self.returned = Ghost(Seq::new(len as nat, |k: int| Seq::<Interval>::empty()));
            self.reported = Ghost(Seq::new(len as nat, |k: int| Seq::<Option<u64>>::empty()));
            self.emitted = Ghost(Seq::empty());
            reveal(or_trace);
            self.lemma_trace_close();
            self.lemma_gaps_close();
        }
    }
}

// ---------------------------------------------------------------- ordered

/// The first `i` slots hold intervals the evaluator may produce, each
/// starting after the previous one ends.
pub open spec fn chained(cur: Seq<Option<Interval>>, i: int) -> bool {
    &&& forall|j: int| 0 <= j < i ==> (#[trigger] cur[j]) is Some && ok_iv(cur[j]->0)
    &&& forall|j: int, l: int| 0 <= j < l < i ==> (#[trigger] cur[j])->0.end < (#[trigger] cur[l])->0.start
}

/// A chain starts no later than any of its links start.
pub proof fn lemma_chain_start(cur: Seq<Option<Interval>>, i: int, j: int)
    requires
        chained(cur, i),
        0 <= j < i,
    ensures
        cur[0]->0.start <= cur[j]->0.start,
{
    if j > 0 {
        assert(cur[0]->0.end < cur[j]->0.start);
    }
}

/// Sum of the widths of the first `k` slots.
pub open spec fn width_sum(cur: Seq<Option<Interval>>, k: int) -> int
    decreases k,
{
    if k <= 0 {
        0
    } else {
        width_sum(cur, k - 1) + match cur[k - 1] {
            Some(iv) => spec_width(iv),
            None => 0,
        }
    }
}

/// The links of a chain are disjoint, so their widths add up to no more
/// than the width of the span from the first link's start to the last
/// link's end.
pub proof fn lemma_width_sum_chained(cur: Seq<Option<Interval>>, k: int)
    requires
        1 <= k,
        chained(cur, k),
    ensures
        0 <= width_sum(cur, k) <= cur[k - 1]->0.end - cur[0]->0.start + 1,
    decreases k,
{
    assert(cur[k - 1] is Some && ok_iv(cur[k - 1]->0));
    if k > 1 {
        lemma_width_sum_chained(cur, k - 1);
        assert(cur[k - 1]->0.start > cur[k - 2]->0.end);
    } else {
        assert(width_sum(cur, 0) == 0);
    }
}

/// Sum of the widths of a chain's links.
fn chain_width_sum(cur: &Vec<Option<Interval>>) -> (r: u64)
    requires
        cur@.len() >= 1,
        chained(cur@, cur@.len() as int),
    ensures
        r == width_sum(cur@, cur@.len() as int),
{
    let m = cur.len();
    let mut sum: u64 = 0;
    let mut j: usize = 0;
    while j < m
        invariant
            m == cur@.len(),
            j <= m,
            chained(cur@, m as int),
            sum == width_sum(cur@, j as int),
        decreases m - j,
    {
        proof {
            assert(chained(cur@, j + 1));
            lemma_width_sum_chained(cur@, j + 1);
            lemma_chain_start(cur@, m as int, j as int);
        }
        let w: u64 = match cur[j] {
            Some(c) => c.width() as u64,
            None => 0,
        };
        sum = sum + w;
        j += 1;
    }
    sum
}

/// Ordered node: minimal intervals in which the children's intervals
/// appear in order without overlapping. A chain is built greedily and then
/// tightened from right to left; intervals overshot while tightening are
/// held back for the next call.
/// In a chain whose last link is that of chain `c`, and each of whose
/// other links is either `c`'s or cannot come before `c`'s next link, every
/// link is `c`'s.
pub proof fn lemma_chain_pinned(cur: Seq<Option<Interval>>, c: Seq<Interval>, m: int, k: int)
    requires
        2 <= m,
        c.len() == m,
        chained(cur, m),
        0 <= k < m,
        forall|j: int| 0 <= j < m - 1 ==> (#[trigger] cur[j])->0 == c[j] || cur[j]->0.end >= c[j + 1].start,
        cur[m - 1]->0 == c[m - 1],
    ensures
        cur[k]->0 == c[k],
    decreases m - k,
{
    if k < m - 1 {
        lemma_chain_pinned(cur, c, m, k + 1);
        assert(cur[k]->0.end < cur[k + 1]->0.start);
    }
}

pub struct OrderedState {
    children: Vec<NodeState>,
    current: Vec<Option<Interval>>,
    lookahead: Vec<Option<Interval>>,
    last_gaps: Option<u64>,
    floor: Ghost<Interval>,
    /// The links of the chain last produced.
    last: Ghost<Seq<Interval>>,
}

impl OrderedState {
    pub closed spec fn wf<P: TermPositions>(&self, p: &P, n: nat) -> bool
        decreases self,
    {
        let ch = self.children@;
        let cur = self.current@;
        let la = self.lookahead@;
        let m = ch.len();
        &&& m >= 2
        &&& cur.len() == m
        &&& la.len() == m
        &&& forall|k: int| 0 <= k < m ==> (#[trigger] ch[k]).wf(p, n)
        &&& self.slots_ok(p)
        &&& self.floor@.start <= ch[0].floor(p).start
        &&& self.floor@.end <= ch[m - 1].floor(p).end
        &&& (cur[m - 1] is Some ==> self.floor@.end <= cur[m - 1]->0.end)
        &&& (cur[0] is Some ==> self.floor@.start <= cur[0]->0.start)
        &&& (self.floor@ != origin() ==> cur[0] is Some || (ch[0].finished(p) && la[0] is None))
        &&& (strict_positions(p, n) ==> forall|k: int| 0 <= k < m && (#[trigger] la[k]) is Some
                ==> cur[k] is Some && cur[k]->0.start < la[k]->0.start)
        &&& la[m - 1] is None
        &&& (cur[m - 1] is Some ==> cur[m - 1]->0 == ch[m - 1].floor(p) || ch[m - 1].finished(p))
        &&& (strict_positions(p, n) && self.floor@ != origin() ==> self.last@.len() == m
                && self.floor@ == (Interval { start: self.last@[0].start, end: self.last@[m - 1].end }))
        &&& self.snaps_ok(p, n)
    }

    /// An interval child `k` may hold in a later chain: the link it held in
    /// the chain last produced, or one that cannot chain before the next link
    /// of that chain (for the last child: one that ends after it).
    pub closed spec fn snap_good(&self, k: int, v: Interval) -> bool {
        let c = self.last@;
        let l = self.children@.len() - 1;
        if k < l { v == c[k] || v.end >= c[k + 1].start } else { v == c[l] || v.end > c[l].end }
    }

    /// Every interval child `k` produces from now on is good.
    pub closed spec fn snap_future<P: TermPositions>(&self, p: &P, k: int) -> bool {
        let c = self.last@;
        let l = self.children@.len() - 1;
        let ch = self.children@[k];
        ||| ch.finished(p)
        ||| (k < l && ch.floor(p).end >= c[k + 1].start)
        ||| (k == l && ((ch.started(p) && ch.floor(p) == c[l]) || ch.floor(p).end > c[l].end))
    }

    /// Slot `k`, its held-back interval and its child agree with the chain
    /// last produced, when positions are strict.
    pub closed spec fn snap_ok<P: TermPositions>(&self, p: &P, n: nat, k: int) -> bool {
        strict_positions(p, n) && self.floor@ != origin() ==> {
            &&& (self.current@[k] matches Some(v) ==> self.snap_good(k, v))
            &&& (self.lookahead@[k] matches Some(x) ==> k < self.children@.len() - 1 && x.end >= self.last@[k + 1].start)
            &&& (self.lookahead@[k] is None ==> self.snap_future(p, k))
        }
    }

    /// Every slot is as `snap_ok` describes.
    #[verifier::opaque]
    pub closed spec fn snaps_ok<P: TermPositions>(&self, p: &P, n: nat) -> bool {
        forall|k: int| 0 <= k < self.children@.len() ==> #[trigger] self.snap_ok(p, n, k)
    }

    proof fn lemma_snap<P: TermPositions>(&self, p: &P, n: nat, k: int)
        requires
            self.snaps_ok(p, n),
            0 <= k < self.children@.len(),
        ensures
            self.snap_ok(p, n, k),
    {
        reveal(OrderedState::snaps_ok);
    }

    /// Replacing slot `k` alone by one agreeing with the same chain keeps
    /// every slot agreeing.
    proof fn lemma_snaps_update<P: TermPositions>(before: OrderedState, after: OrderedState, p: &P, n: nat, k: int)
        requires
            before.snaps_ok(p, n),
            after.agrees_except(before, k),
            after.floor@ == before.floor@,
            after.last@ == before.last@,
            after.snap_ok(p, n, k),
        ensures
            after.snaps_ok(p, n),
    {
        reveal(OrderedState::snaps_ok);
        assert forall|j: int| 0 <= j < after.children@.len() implies #[trigger] after.snap_ok(p, n, j) by {
            if j != k {
                assert(before.snap_ok(p, n, j));
                assert(after.current@[j] == before.current@[j]);
                assert(after.lookahead@[j] == before.lookahead@[j]);
                assert(after.children@[j] == before.children@[j]);
            }
        }
    }

    /// Slot `k` holds an interval no later than child `k`'s last one, and
    /// the interval held back for child `k` is child `k`'s last one.
    pub closed spec fn slot_ok<P: TermPositions>(&self, p: &P, k: int) -> bool {
        let cur = self.current@;
        let la = self.lookahead@;
        &&& 0 <= k < self.children@.len()
        &&& cur[k] is Some ==> ok_iv(cur[k]->0) && le2(cur[k]->0, self.children@[k].floor(p))
            && self.children@[k].started(p)
        &&& la[k] is Some ==> ok_iv(la[k]->0) && la[k]->0 == self.children@[k].floor(p)
            && self.children@[k].started(p)
    }

    /// Every slot is as `slot_ok` describes.
    #[verifier::opaque]
    pub closed spec fn slots_ok<P: TermPositions>(&self, p: &P) -> bool {
        forall|k: int| 0 <= k < self.children@.len() ==> #[trigger] self.slot_ok(p, k)
    }

    proof fn lemma_slot<P: TermPositions>(&self, p: &P, n: nat, k: int)
        requires
            self.slots_ok(p),
            0 <= k < self.children@.len(),
        ensures
            self.slot_ok(p, k),
    {
        reveal(OrderedState::slots_ok);
    }

    /// Replacing slot `k` alone by a good one keeps every slot good.
    proof fn lemma_slots_update<P: TermPositions>(before: OrderedState, after: OrderedState, p: &P, n: nat, k: int)
        requires
            before.slots_ok(p),
            after.agrees_except(before, k),
            after.slot_ok(p, k),
        ensures
            after.slots_ok(p),
    {
        reveal(OrderedState::slots_ok);
        assert forall|j: int| 0 <= j < after.children@.len() implies #[trigger] after.slot_ok(p, j) by {
            if j != k {
                assert(before.slot_ok(p, j));
                assert(after.current@[j] == before.current@[j]);
            }
        }
    }

    pub closed spec fn fuel<P: TermPositions>(&self, p: &P) -> nat
        decreases self, 0nat,
    {
        fuel_sum(self.children@, held_of(self.lookahead@), p, self.children@.len() as int)
    }

    pub closed spec fn shape(&self, n: nat) -> bool
        decreases self,
    {
        &&& self.children@.len() >= 2
        &&& self.current@.len() == self.children@.len()
        &&& self.lookahead@.len() == self.children@.len()
        &&& forall|k: int| 0 <= k < self.children@.len() ==> (#[trigger] self.children@[k]).shape(n)
    }

    proof fn lemma_wf_shape<P: TermPositions>(&self, p: &P, n: nat)
        requires
            self.wf(p, n),
        ensures
            self.shape(n),
        decreases self,
    {
        assert forall|k: int| 0 <= k < self.children@.len() implies (#[trigger] self.children@[k]).shape(n) by {
            self.children@[k].lemma_wf_shape(p, n);
        }
    }

    pub closed spec fn floor<P: TermPositions>(&self, p: &P) -> Interval {
        self.floor@
    }

    /// An interval has been produced since the last reset.
    pub closed spec fn started<P: TermPositions>(&self, p: &P) -> bool {
        self.floor@ != origin()
    }

    /// Child `i` ran out while its slot cannot extend the chain, so every
    /// later call fails at child `i` again.
    pub closed spec fn stuck_at<P: TermPositions>(&self, p: &P, i: int) -> bool {
        let cur = self.current@;
        &&& 0 <= i < self.children@.len()
        &&& self.children@[i].finished(p)
        &&& self.lookahead@[i] is None
        &&& i > 0 ==> (cur[i - 1] is Some && (cur[i] is None || cur[i]->0.start <= cur[i - 1]->0.end))
    }

    pub closed spec fn finished<P: TermPositions>(&self, p: &P) -> bool
        decreases self,
    {
        exists|i: int| {
            let cur = self.current@;
            &&& 0 <= i < self.children@.len()
            &&& (#[trigger] self.children@[i]).finished(p)
            &&& self.lookahead@[i] is None
            &&& i > 0 ==> (cur[i - 1] is Some && (cur[i] is None || cur[i]->0.start <= cur[i - 1]->0.end))
        }
    }

    pub closed spec fn depth(&self) -> nat
        decreases self, 0nat,
    {
        max_depth(self.children@, self.children@.len() as int) + 1
    }

    pub closed spec fn spec_gaps(&self) -> Option<u64> {
        self.last_gaps
    }

    proof fn lemma_child_depths(&self)
        ensures
            forall|k: int| 0 <= k < self.children@.len() ==> (#[trigger] self.children@[k]).depth() < self.depth(),
    {
        lemma_max_depth_bounds(self.children@, self.children@.len() as int);
    }

    /// Child `k`'s next interval: the held-back one if any, else a fresh one.
    fn child_next<P: TermPositions>(&mut self, k: usize, p: &P, Ghost(n): Ghost<nat>) -> (r: Option<Interval>)
        requires
            old(self).wf(p, n),
            positions_ok(p, n),
            k < old(self).children@.len(),
            old(self).children@[k as int].depth() < old(self).depth(),
        ensures
            final(self).children@.len() == old(self).children@.len(),
            forall|j: int| 0 <= j < old(self).children@.len() && j != k ==> (#[trigger] final(self).children@[j]) == old(self).children@[j],
            final(self).children@[k as int].wf(p, n),
            final(self).slots_ok(p),
            final(self).agrees_except(*old(self), k as int),
            final(self).children@[k as int].depth() == old(self).children@[k as int].depth(),
            le2(old(self).children@[k as int].floor(p), final(self).children@[k as int].floor(p)),
            final(self).current@ == old(self).current@,
            final(self).lookahead@ == old(self).lookahead@.update(k as int, None),
            final(self).floor@ == old(self).floor@,
            final(self).last@ == old(self).last@,
            final(self).last_gaps == old(self).last_gaps,
            child_fuel(final(self).children@[k as int].fuel(p), false)
                <= child_fuel(old(self).children@[k as int].fuel(p), old(self).lookahead@[k as int] is Some),
            r is Some ==> child_fuel(final(self).children@[k as int].fuel(p), false)
                < child_fuel(old(self).children@[k as int].fuel(p), old(self).lookahead@[k as int] is Some),
            r matches Some(x) ==> ok_iv(x) && x == final(self).children@[k as int].floor(p)
                && le2(old(self).children@[k as int].floor(p), x),
            r is None ==> final(self).children@[k as int].finished(p) && old(self).lookahead@[k as int] is None,
            old(self).lookahead@[k as int] is None && old(self).children@[k as int].finished(p) ==> r is None,
            r is Some ==> final(self).children@[k as int].started(p),
            old(self).children@[k as int].started(p) ==> final(self).children@[k as int].started(p),
            strict_positions(p, n) && old(self).current@[k as int] is Some && r is Some
                ==> old(self).current@[k as int]->0.start < r->0.start,
            final(self).snaps_ok(p, n),
            r matches Some(x) ==> (strict_positions(p, n) && final(self).floor@ != origin()
                ==> final(self).snap_good(k as int, x)),
        decreases old(self).depth(), 0nat,
    {
        let ghost o = *self;
        proof {
            o.lemma_slot(p, n, k as int);
            o.lemma_snap(p, n, k as int);
        }
        let held = self.lookahead[k];
        if held.is_some() {
            self.lookahead.set(k, None);
            proof {
                assert(self.agrees_except(o, k as int));
                OrderedState::lemma_slots_update(o, *self, p, n, k as int);
                assert(self.snap_ok(p, n, k as int));
                OrderedState::lemma_snaps_update(o, *self, p, n, k as int);
            }
            return held;
        }
        let r = self.children[k].next_interval(p, Ghost(n));
        proof {
            assert(self.agrees_except(o, k as int));
            OrderedState::lemma_slots_update(o, *self, p, n, k as int);
            if strict_positions(p, n) && self.floor@ != origin() {
                assert(o.snap_future(p, k as int));
                let l = self.children@.len() - 1;
                if r is Some {
                    assert(!o.children@[k as int].finished(p));
                    if k < l {
                        assert(self.snap_good(k as int, r->0));
                    } else {
                        assert(self.snap_good(k as int, r->0));
                    }
                }
                assert(self.snap_future(p, k as int));
            }
            assert(self.snap_ok(p, n, k as int));
            OrderedState::lemma_snaps_update(o, *self, p, n, k as int);
        }
        r
    }

    /// The slots and children from index `i` on are those of `o`.
    #[verifier::opaque]
    pub closed spec fn same_from(&self, o: OrderedState, i: int) -> bool {
        &&& self.children@.len() == o.children@.len()
        &&& forall|k: int| i <= k < self.children@.len() ==> (#[trigger] self.current@[k]) == o.current@[k]
            && self.lookahead@[k] == o.lookahead@[k] && self.children@[k] == o.children@[k]
    }

    /// The slots before index `i` hold intervals no earlier than those of `o`.
    #[verifier::opaque]
    pub closed spec fn advanced_before(&self, o: OrderedState, i: int) -> bool {
        forall|k: int| 0 <= k < i && (#[trigger] o.current@[k]) is Some ==> self.current@[k] is Some
            && le2(o.current@[k]->0, self.current@[k]->0)
    }

    /// `self` and `o` agree at every index but `i`.
    pub closed spec fn agrees_except(&self, o: OrderedState, i: int) -> bool {
        &&& self.children@.len() == o.children@.len()
        &&& forall|k: int| 0 <= k < self.children@.len() && k != i ==> #[trigger] self.current@[k] == o.current@[k]
        &&& forall|k: int| 0 <= k < self.children@.len() && k != i ==> #[trigger] self.lookahead@[k] == o.lookahead@[k]
        &&& forall|k: int| 0 <= k < self.children@.len() && k != i ==> #[trigger] self.children@[k] == o.children@[k]
    }

    /// `slots_ok` depends on the children and slots alone.
    proof fn lemma_slots_same<P: TermPositions>(a: OrderedState, b: OrderedState, p: &P, n: nat)
        requires
            a.slots_ok(p),
            a.children@ == b.children@,
            a.current@ == b.current@,
            a.lookahead@ == b.lookahead@,
        ensures
            b.slots_ok(p),
    {
        reveal(OrderedState::slots_ok);
        assert forall|j: int| 0 <= j < b.children@.len() implies #[trigger] b.slot_ok(p, j) by {
            assert(a.slot_ok(p, j));
        }
    }

    /// A finished node has a child it is stuck at.
    proof fn lemma_finished_stuck<P: TermPositions>(&self, p: &P) -> (i: int)
        requires
            self.finished(p),
        ensures
            self.stuck_at(p, i),
    {
        choose|i: int| {
            let cur = self.current@;
            &&& 0 <= i < self.children@.len()
            &&& (#[trigger] self.children@[i]).finished(p)
            &&& self.lookahead@[i] is None
            &&& i > 0 ==> (cur[i - 1] is Some && (cur[i] is None || cur[i]->0.start <= cur[i - 1]->0.end))
        }
    }

    /// Changing index `i` alone, without moving its slot back, keeps a
    /// state in step with the one the current step started from.
    proof fn lemma_step_keeps(o: OrderedState, before: OrderedState, after: OrderedState, i: int)
        requires
            0 <= i < o.children@.len(),
            before.same_from(o, i + 1),
            before.advanced_before(o, i + 1),
            after.agrees_except(before, i),
            o.current@[i] is Some ==> after.current@[i] is Some && le2(o.current@[i]->0, after.current@[i]->0),
        ensures
            after.same_from(o, i + 1),
            after.advanced_before(o, i + 1),
    {
        reveal(OrderedState::same_from);
        reveal(OrderedState::advanced_before);
        assert forall|k: int| i + 1 <= k < after.children@.len() implies (#[trigger] after.current@[k]) == o.current@[k]
            && after.lookahead@[k] == o.lookahead@[k] && after.children@[k] == o.children@[k] by {
            assert(after.current@[k] == before.current@[k]);
            assert(after.lookahead@[k] == before.lookahead@[k]);
            assert(after.children@[k] == before.children@[k]);
            assert(before.current@[k] == o.current@[k]);
        }
        assert forall|k: int| 0 <= k < i + 1 && (#[trigger] o.current@[k]) is Some implies after.current@[k] is Some
            && le2(o.current@[k]->0, after.current@[k]->0) by {
            if k < i {
                assert(before.current@[k] is Some);
                assert(after.current@[k] == before.current@[k]);
            }
        }
    }

    /// A state is in step with itself.
    proof fn lemma_in_step_with_self(o: OrderedState, i: int)
        ensures
            o.same_from(o, i),
            o.advanced_before(o, i),
    {
        reveal(OrderedState::same_from);
        reveal(OrderedState::advanced_before);
    }

    /// Step two for one link: advance child `i` until its interval starts
    /// after `prev_end`, the end of link `i - 1`.
    #[verifier::rlimit(80)]
    #[verifier::spinoff_prover]
    fn extend_link<P: TermPositions>(&mut self, i: usize, prev_end: u32, p: &P, Ghost(n): Ghost<nat>) -> (r: bool)
        requires
            old(self).wf(p, n),
            positions_ok(p, n),
            1 <= i < old(self).children@.len(),
            chained(old(self).current@, i as int),
            prev_end == old(self).current@[i - 1]->0.end,
        ensures
            final(self).wf(p, n),
            final(self).children@.len() == old(self).children@.len(),
            final(self).depth() == old(self).depth(),
            final(self).floor@ == old(self).floor@,
            final(self).last@ == old(self).last@,
            final(self).fuel(p) <= old(self).fuel(p),
            final(self).same_from(*old(self), i + 1),
            final(self).advanced_before(*old(self), i + 1),
            forall|k: int| 0 <= k < i ==> (#[trigger] final(self).current@[k]) == old(self).current@[k],
            r ==> chained(final(self).current@, i + 1),
            !r ==> final(self).stuck_at(p, i as int),
            old(self).stuck_at(p, i as int) ==> !r,
        decreases old(self).depth(), 1nat,
    {
        proof {
            self.lemma_child_depths();
            OrderedState::lemma_in_step_with_self(*self, i + 1);
            self.lemma_slot(p, n, i as int);
        }
        let m = self.children.len();
        let ghost d = self.depth();
        let ghost o = *self;
        loop
            invariant
                m == self.children@.len(),
                m == o.children@.len(),
                1 <= i < m,
                self.wf(p, n),
                positions_ok(p, n),
                self.depth() == d,
                d == o.depth(),
                forall|k: int| 0 <= k < m ==> (#[trigger] self.children@[k]).depth() < d,
                self.floor@ == o.floor@,
                self.last@ == o.last@,
                self.fuel(p) <= o.fuel(p),
                prev_end == self.current@[i - 1]->0.end,
                self.same_from(o, i + 1),
                self.advanced_before(o, i + 1),
                o.current@[i as int] is Some ==> self.current@[i as int] is Some
                    && le2(o.current@[i as int]->0, self.current@[i as int]->0),
                forall|k: int| 0 <= k < i ==> (#[trigger] self.current@[k]) == o.current@[k],
                chained(self.current@, i as int),
                self.current@[i as int] is Some ==> ok_iv(self.current@[i as int]->0),
                o.stuck_at(p, i as int) ==> self.current@[i as int] == o.current@[i as int]
                    && self.children@[i as int].finished(p) && self.lookahead@[i as int] is None,
                o == *old(self),
            decreases self.fuel(p),
        {
            let cached_ok = match self.current[i] {
                Some(c) => c.start > prev_end,
                None => false,
            };
            if cached_ok {
                return true;
            }
            let ghost before = *self;
            proof {
                before.lemma_slot(p, n, i as int);
            }
            let next = self.child_next(i, p, Ghost(n));
            proof {
                lemma_fuel_sum_update(before.children@, held_of(before.lookahead@), self.children@,
                    held_of(self.lookahead@), p, i as int, m as int);
                lemma_max_depth_same(before.children@, self.children@, m as int);
                OrderedState::lemma_step_keeps(o, before, *self, i as int);
            }
            match next {
                Some(iv) => {
                    let ghost mid = *self;
                    self.current.set(i, Some(iv));
                    proof {
                        assert(self.agrees_except(mid, i as int));
                        OrderedState::lemma_slots_update(mid, *self, p, n, i as int);
                        OrderedState::lemma_step_keeps(o, mid, *self, i as int);
                        mid.lemma_snap(p, n, i as int);
                        assert(self.snap_ok(p, n, i as int));
                        OrderedState::lemma_snaps_update(mid, *self, p, n, i as int);
                        if i < m - 1 {
                            assert(self.children@[m - 1] == before.children@[m - 1]);
                            assert(self.current@[m - 1] == before.current@[m - 1]);
                        }
                        assert(self.lookahead@[m - 1] == before.lookahead@[m - 1] || i == m - 1);
                    }
                },
                None => {
                    proof {
                        if i < m - 1 {
                            assert(self.children@[m - 1] == before.children@[m - 1]);
                            assert(self.current@[m - 1] == before.current@[m - 1]);
                        }
                    }
                    return false;
                },
            }
        }
    }

    /// Step one: advance child 0.
    fn start_chain<P: TermPositions>(&mut self, p: &P, Ghost(n): Ghost<nat>) -> (r: bool)
        requires
            old(self).wf(p, n),
            positions_ok(p, n),
        ensures
            final(self).wf(p, n),
            final(self).children@.len() == old(self).children@.len(),
            final(self).depth() == old(self).depth(),
            final(self).floor@ == old(self).floor@,
            final(self).last@ == old(self).last@,
            final(self).fuel(p) <= old(self).fuel(p),
            r ==> final(self).fuel(p) < old(self).fuel(p),
            r ==> chained(final(self).current@, 1),
            r ==> old(self).floor@.start <= final(self).current@[0]->0.start,
            r && strict_positions(p, n) && old(self).current@[0] is Some
                ==> old(self).current@[0]->0.start < final(self).current@[0]->0.start,
            final(self).same_from(*old(self), 1),
            r ==> final(self).advanced_before(*old(self), 1),
            !r ==> final(self).stuck_at(p, 0),
            old(self).stuck_at(p, 0) ==> !r,
        decreases old(self).depth(), 1nat,
    {
        proof {
            self.lemma_child_depths();
            reveal(OrderedState::same_from);
            reveal(OrderedState::advanced_before);
        }
        let m = self.children.len();
        let ghost o = *self;
        let ghost ch0 = self.children@;
        let first = self.child_next(0, p, Ghost(n));
        proof {
            lemma_fuel_sum_update(ch0, held_of(o.lookahead@), self.children@, held_of(self.lookahead@), p, 0, m as int);
            lemma_max_depth_same(ch0, self.children@, m as int);
        }
        proof {
            assert(o.floor@.start <= o.children@[0].floor(p).start);
            o.lemma_slot(p, n, 0);
        }
        let ghost mid = *self;
        self.current.set(0, first);
        proof {
            assert(self.agrees_except(mid, 0));
            OrderedState::lemma_slots_update(mid, *self, p, n, 0);
            mid.lemma_snap(p, n, 0);
            assert(self.snap_ok(p, n, 0));
            OrderedState::lemma_snaps_update(mid, *self, p, n, 0);
            assert(self.children@[m - 1] == o.children@[m - 1]);
            assert(self.current@[m - 1] == o.current@[m - 1]);
            assert(self.lookahead@[m - 1] == o.lookahead@[m - 1]);
        }
        first.is_some()
    }

    /// One more extended link keeps the state in step with the one it was
    /// built from.
    proof fn lemma_build_step(o1: OrderedState, before: OrderedState, after: OrderedState, i: int)
        requires
            1 <= i < o1.children@.len(),
            before.same_from(o1, i),
            before.advanced_before(o1, i),
            after.same_from(before, i + 1),
            after.advanced_before(before, i + 1),
            forall|k: int| 0 <= k < i ==> (#[trigger] after.current@[k]) == before.current@[k],
        ensures
            after.same_from(o1, i + 1),
            after.advanced_before(o1, i + 1),
    {
        reveal(OrderedState::same_from);
        reveal(OrderedState::advanced_before);
        assert forall|k: int| i + 1 <= k < after.children@.len() implies (#[trigger] after.current@[k]) == o1.current@[k]
            && after.lookahead@[k] == o1.lookahead@[k] && after.children@[k] == o1.children@[k] by {
            assert(after.current@[k] == before.current@[k]);
            assert(before.current@[k] == o1.current@[k]);
        }
        assert forall|k: int| 0 <= k < i + 1 && (#[trigger] o1.current@[k]) is Some implies after.current@[k] is Some
            && le2(o1.current@[k]->0, after.current@[k]->0) by {
            if k < i {
                assert(before.current@[k] is Some);
            } else {
                assert(before.current@[k] == o1.current@[k]);
                assert(before.current@[k] is Some);
            }
        }
    }

    /// A child stuck at index `i0 >= i` of the state before building stays
    /// stuck in a state whose earlier links only advanced.
    proof fn lemma_stuck_carries<P: TermPositions>(o: OrderedState, o1: OrderedState, cur: OrderedState, p: &P, i: int, i0: int)
        requires
            1 <= i <= i0,
            o.stuck_at(p, i0),
            cur.same_from(o1, i),
            cur.advanced_before(o1, i),
            o1.same_from(o, 1),
            o1.advanced_before(o, 1),
        ensures
            i0 == i ==> cur.stuck_at(p, i),
    {
        reveal(OrderedState::same_from);
        reveal(OrderedState::advanced_before);
        if i0 == i {
            assert(cur.current@[i] == o1.current@[i]);
            assert(o1.current@[i] == o.current@[i]);
            assert(cur.current@[i - 1] is Some);
            if i - 1 == 0 {
                assert(o.current@[0] is Some);
            } else {
                assert(o1.current@[i - 1] == o.current@[i - 1]);
            }
        }
    }

    /// Steps one and two: advance child 0, then extend the chain greedily so
    /// that each child's interval starts after the previous one ends.
    /// Returns false when some child runs out.
    #[verifier::rlimit(80)]
    #[verifier::spinoff_prover]
    fn build_chain<P: TermPositions>(&mut self, p: &P, Ghost(n): Ghost<nat>) -> (r: bool)
        requires
            old(self).wf(p, n),
            positions_ok(p, n),
        ensures
            final(self).wf(p, n),
            final(self).depth() == old(self).depth(),
            final(self).floor@ == old(self).floor@,
            final(self).last@ == old(self).last@,
            final(self).fuel(p) <= old(self).fuel(p),
            r ==> final(self).fuel(p) < old(self).fuel(p),
            r ==> chained(final(self).current@, final(self).children@.len() as int),
            r ==> old(self).floor@.start <= final(self).current@[0]->0.start,
            r && strict_positions(p, n) && old(self).current@[0] is Some
                ==> old(self).current@[0]->0.start < final(self).current@[0]->0.start,
            !r ==> final(self).finished(p),
            old(self).finished(p) ==> !r,
        decreases old(self).depth(), 2nat,
    {
        let m = self.children.len();
        let ghost o = *self;
        if !self.start_chain(p, Ghost(n)) {
            return false;
        }
        let ghost o1 = *self;
        proof {
            OrderedState::lemma_in_step_with_self(o1, 1);
        }
        let ghost was_finished = o.finished(p);
        let ghost mut i0: int = 0;
        proof {
            if was_finished {
                i0 = o.lemma_finished_stuck(p);
            }
        }
        let mut i: usize = 1;
        while i < m
            invariant
                m == self.children@.len(),
                1 <= i <= m,
                self.wf(p, n),
                positions_ok(p, n),
                self.depth() == o.depth(),
                self.floor@ == o.floor@,
                self.last@ == o.last@,
                self.fuel(p) <= o1.fuel(p),
                o1.fuel(p) < o.fuel(p),
                chained(self.current@, i as int),
                o.floor@.start <= self.current@[0]->0.start,
                strict_positions(p, n) && o.current@[0] is Some ==> o.current@[0]->0.start < self.current@[0]->0.start,
                self.same_from(o1, i as int),
                self.advanced_before(o1, i as int),
                o1.same_from(o, 1),
                o1.advanced_before(o, 1),
                was_finished ==> o.stuck_at(p, i0) && i <= i0,
                o1.children@.len() == m,
                o == *old(self),
            decreases m - i,
        {
            let prev_end = match self.current[i - 1] {
                Some(c) => c.end,
                None => 0,
            };
            let ghost before = *self;
            proof {
                if was_finished {
                    OrderedState::lemma_stuck_carries(o, o1, before, p, i as int, i0);
                }
            }
            let ok = self.extend_link(i, prev_end, p, Ghost(n));
            if !ok {
                return false;
            }
            proof {
                OrderedState::lemma_build_step(o1, before, *self, i as int);
            }
            i += 1;
        }
        true
    }

    /// After tightening, link `k` cannot be moved forward: the interval held
    /// back for child `k` no longer ends before link `k + 1` starts, or child
    /// `k` has run out.
    pub closed spec fn link_tight<P: TermPositions>(&self, p: &P, k: int) -> bool {
        match self.lookahead@[k] {
            Some(x) => x.end >= self.current@[k + 1]->0.start,
            None => self.children@[k].finished(p),
        }
    }

    /// What an interval produced by the node satisfies against the node's
    /// state afterwards: it spans a chain of one interval per child, in
    /// order and without overlap, that no child can tighten further, and
    /// the reported gaps are the positions of the span that no link covers.
    pub closed spec fn produced_chain<P: TermPositions>(&self, p: &P, iv: Interval) -> bool {
        let m = self.children@.len() as int;
        &&& chained(self.current@, m)
        &&& iv.start == self.current@[0]->0.start
        &&& iv.end == self.current@[m - 1]->0.end
        &&& forall|k: int| 0 <= k < m - 1 ==> #[trigger] self.link_tight(p, k)
        &&& self.last_gaps == Some((spec_width(iv) - width_sum(self.current@, m)) as u64)
    }

    /// Step three for one link: advance child `k` while its next interval
    /// still ends before link `k + 1` starts, keeping the last such one; the
    /// first that does not is held back for the next call.
    #[verifier::rlimit(40)]
    fn tighten_link<P: TermPositions>(&mut self, k: usize, p: &P, Ghost(n): Ghost<nat>)
        requires
            old(self).wf(p, n),
            positions_ok(p, n),
            k + 1 < old(self).children@.len(),
            chained(old(self).current@, old(self).children@.len() as int),
        ensures
            final(self).wf(p, n),
            final(self).depth() == old(self).depth(),
            final(self).floor@ == old(self).floor@,
            final(self).last@ == old(self).last@,
            final(self).last_gaps == old(self).last_gaps,
            final(self).fuel(p) <= old(self).fuel(p),
            final(self).agrees_except(*old(self), k as int),
            chained(final(self).current@, final(self).children@.len() as int),
            le2(old(self).current@[k as int]->0, final(self).current@[k as int]->0),
            final(self).link_tight(p, k as int),
        decreases old(self).depth(), 1nat,
    {
        proof { self.lemma_child_depths(); }
        let m = self.children.len();
        let ghost d = self.depth();
        let ghost o = *self;
        let limit = match self.current[k + 1] {
            Some(c) => c.start,
            None => 0,
        };
        let ghost ch0 = self.children@;
        let ghost la0 = self.lookahead@;
        proof {
            o.lemma_slot(p, n, k as int);
        }
        self.lookahead.set(k, None);
        proof {
            lemma_fuel_sum_update(ch0, held_of(la0), self.children@, held_of(self.lookahead@), p, k as int, m as int);
            assert(self.agrees_except(o, k as int));
            OrderedState::lemma_slots_update(o, *self, p, n, k as int);
            o.lemma_snap(p, n, k as int);
            assert(self.snap_ok(p, n, k as int));
            OrderedState::lemma_snaps_update(o, *self, p, n, k as int);
            assert(self.current@[m - 1] == o.current@[m - 1]);
            assert(self.children@[m - 1] == o.children@[m - 1]);
        }
        loop
            invariant
                m == self.children@.len(),
                m == o.children@.len(),
                k + 1 < m,
                self.wf(p, n),
                positions_ok(p, n),
                self.depth() == d,
                d == o.depth(),
                forall|j: int| 0 <= j < m ==> (#[trigger] self.children@[j]).depth() < d,
                self.floor@ == o.floor@,
                self.last@ == o.last@,
                self.last_gaps == o.last_gaps,
                self.fuel(p) <= o.fuel(p),
                self.agrees_except(o, k as int),
                self.lookahead@[k as int] is None,
                chained(self.current@, m as int),
                limit == self.current@[k + 1]->0.start,
                le2(o.current@[k as int]->0, self.current@[k as int]->0),
                o == *old(self),
            decreases self.children@[k as int].fuel(p),
        {
            let ghost before = *self;
            proof {
                before.lemma_slot(p, n, k as int);
            }
            let next = self.children[k].next_interval(p, Ghost(n));
            proof {
                lemma_fuel_sum_update(before.children@, held_of(before.lookahead@), self.children@,
                    held_of(self.lookahead@), p, k as int, m as int);
                lemma_max_depth_same(before.children@, self.children@, m as int);
                assert(self.agrees_except(before, k as int));
                OrderedState::lemma_slots_update(before, *self, p, n, k as int);
                before.lemma_snap(p, n, k as int);
                if strict_positions(p, n) && self.floor@ != origin() && next is Some {
                    assert(!before.children@[k as int].finished(p));
                }
                assert(self.snap_ok(p, n, k as int));
                OrderedState::lemma_snaps_update(before, *self, p, n, k as int);
                assert(self.current@[m - 1] == before.current@[m - 1]);
                assert(self.children@[m - 1] == before.children@[m - 1]);
            }
            match next {
                Some(iv) => {
                    let ghost mid = *self;
                    if iv.end < limit {
                        self.current.set(k, Some(iv));
                        proof {
                            assert(self.agrees_except(mid, k as int));
                            OrderedState::lemma_slots_update(mid, *self, p, n, k as int);
                            mid.lemma_snap(p, n, k as int);
                            assert(self.snap_ok(p, n, k as int));
                            OrderedState::lemma_snaps_update(mid, *self, p, n, k as int);
                            assert(self.current@[m - 1] == mid.current@[m - 1]);
                        }
                    } else {
                        self.lookahead.set(k, Some(iv));
                        proof {
                            lemma_fuel_sum_update(before.children@, held_of(before.lookahead@), self.children@,
                                held_of(self.lookahead@), p, k as int, m as int);
                            assert(self.agrees_except(mid, k as int));
                            OrderedState::lemma_slots_update(mid, *self, p, n, k as int);
                            mid.lemma_snap(p, n, k as int);
                            assert(self.snap_ok(p, n, k as int));
                            OrderedState::lemma_snaps_update(mid, *self, p, n, k as int);
                            assert(self.lookahead@[m - 1] == mid.lookahead@[m - 1]);
                        }
                        return;
                    }
                },
                None => {
                    return;
                },
            }
        }
    }

    /// Step three: tighten the links from the last but one down to the
    /// first, each against the already tightened link to its right.
    #[verifier::rlimit(60)]
    fn tighten<P: TermPositions>(&mut self, p: &P, Ghost(n): Ghost<nat>)
        requires
            old(self).wf(p, n),
            positions_ok(p, n),
            chained(old(self).current@, old(self).children@.len() as int),
        ensures
            final(self).wf(p, n),
            final(self).children@.len() == old(self).children@.len(),
            final(self).depth() == old(self).depth(),
            final(self).floor@ == old(self).floor@,
            final(self).last@ == old(self).last@,
            final(self).fuel(p) <= old(self).fuel(p),
            chained(final(self).current@, final(self).children@.len() as int),
            old(self).current@[0]->0.start <= final(self).current@[0]->0.start,
            final(self).current@[final(self).children@.len() - 1] == old(self).current@[old(self).children@.len() - 1],
            forall|j: int| 0 <= j < final(self).children@.len() - 1 ==> #[trigger] final(self).link_tight(p, j),
        decreases old(self).depth(), 2nat,
    {
        let m = self.children.len();
        let ghost o = *self;
        let mut k: usize = m - 1;
        while k > 0
            invariant
                m == self.children@.len(),
                m == o.children@.len(),
                k < m,
                self.wf(p, n),
                positions_ok(p, n),
                self.depth() == o.depth(),
                self.floor@ == o.floor@,
                self.last@ == o.last@,
                self.fuel(p) <= o.fuel(p),
                chained(self.current@, m as int),
                o.current@[0]->0.start <= self.current@[0]->0.start,
                self.current@[m - 1] == o.current@[m - 1],
                forall|j: int| k <= j < m - 1 ==> #[trigger] self.link_tight(p, j),
                o == *old(self),
            decreases k,
        {
            k -= 1;
            let ghost before = *self;
            self.tighten_link(k, p, Ghost(n));
            proof {
                assert forall|j: int| k <= j < m - 1 implies #[trigger] self.link_tight(p, j) by {
                    if j > k {
                        assert(before.link_tight(p, j));
                        assert(self.lookahead@[j] == before.lookahead@[j]);
                        assert(self.current@[j + 1] == before.current@[j + 1]);
                        assert(self.children@[j] == before.children@[j]);
                    }
                }
                if k > 0 {
                    assert(self.current@[0] == before.current@[0]);
                }
                assert(self.current@[m - 1] == before.current@[m - 1]);
            }
        }
    }

    #[verifier::rlimit(60)]
    #[verifier::spinoff_prover]
    pub fn next_interval<P: TermPositions>(&mut self, p: &P, Ghost(n): Ghost<nat>) -> (r: Option<Interval>)
        requires
            old(self).wf(p, n),
            positions_ok(p, n),
        ensures
            final(self).wf(p, n),
            final(self).depth() == old(self).depth(),
            final(self).fuel(p) <= old(self).fuel(p),
            r is Some ==> final(self).fuel(p) < old(self).fuel(p),
            le2(old(self).floor(p), final(self).floor(p)),
            r matches Some(iv) ==> ok_iv(iv) && le2(old(self).floor(p), iv) && final(self).floor(p) == iv
                && final(self).produced_chain(p, iv),
            r is None ==> final(self).finished(p),
            old(self).finished(p) ==> r is None,
            old(self).started(p) ==> final(self).started(p),
            r is Some ==> final(self).started(p),
            starts_after(strict_positions(p, n) && old(self).started(p), old(self).floor(p), r),
            ends_after(strict_positions(p, n) && old(self).started(p), old(self).floor(p), r),
        decreases old(self).depth(), 3nat,
    {
        if !self.build_chain(p, Ghost(n)) {
            return None;
        }
        let ghost built = *self;
        self.tighten(p, Ghost(n));
        let m = self.children.len();
        let start = match self.current[0] {
            Some(c) => c.start,
            None => 0,
        };
        let end = match self.current[m - 1] {
            Some(c) => c.end,
            None => 0,
        };
        proof {
            lemma_chain_start(self.current@, m as int, m - 1);
            lemma_width_sum_chained(self.current@, m as int);
        }
        let sum = chain_width_sum(&self.current);
        proof {
            self.lemma_slot(p, n, 0);
            self.lemma_slot(p, n, m - 1);
        }
        let ghost tight = *self;
        let ghost o = *old(self);
        proof {
            if strict_positions(p, n) && o.floor@ != origin() {
                if o.current@[0] is None {
                    assert(o.children@[0].finished(p) && o.lookahead@[0] is None);
                    assert(o.finished(p));
                }
                assert(tight.current@[0]->0.start > o.last@[0].start);
                if tight.current@[m - 1]->0.end <= o.last@[m - 1].end {
                    tight.lemma_snap(p, n, m - 1);
                    assert(tight.current@[m - 1]->0 == o.last@[m - 1]);
                    assert forall|j: int| 0 <= j < m - 1 implies
                        (#[trigger] tight.current@[j])->0 == o.last@[j] || tight.current@[j]->0.end >= o.last@[j + 1].start by {
                        tight.lemma_snap(p, n, j);
                    }
                    lemma_chain_pinned(tight.current@, o.last@, m as int, 0);
                }
            }
        }
        let interval = Interval::new(start, end);
        self.last_gaps = (interval.width() as u64).checked_sub(sum);
        self.floor = Ghost(interval);
        self.last = Ghost(Seq::new(m as nat, |k: int| tight.current@[k]->0));
        proof {
            OrderedState::lemma_slots_same(tight, *self, p, n);
            reveal(OrderedState::snaps_ok);
            assert forall|k: int| 0 <= k < m implies #[trigger] self.snap_ok(p, n, k) by {
                if strict_positions(p, n) && self.floor@ != origin() {
                    tight.lemma_slot(p, n, k);
                    if k < m - 1 {
                        assert(tight.link_tight(p, k));
                    }
                }
            }
            assert(built.floor@.end <= built.current@[m - 1]->0.end);
            assert forall|k: int| 0 <= k < m - 1 implies #[trigger] self.link_tight(p, k) by {
                assert(tight.link_tight(p, k));
            }
        }
        Some(interval)
    }

    pub fn gaps(&self) -> (r: Option<u64>)
        ensures
            r == self.spec_gaps(),
    {
        self.last_gaps
    }

    fn reset<P: TermPositions>(&mut self, p: &P, Ghost(n): Ghost<nat>)
        requires
            old(self).shape(n),
        ensures
            final(self).wf(p, n),
            final(self).shape(n),
            final(self).depth() == old(self).depth(),
            final(self).floor(p) == origin(),
        decreases old(self).depth(), 0nat,
    {
        proof { self.lemma_child_depths(); }
        let m = self.children.len();
        let ghost d = self.depth();
        let mut i: usize = 0;
        while i < m
            invariant
                m == self.children@.len(),
                m >= 1,
                i <= m,
                self.current@.len() == m,
                self.lookahead@.len() == m,
                forall|k: int| 0 <= k < i ==> (#[trigger] self.current@[k]) is None,
                forall|k: int| 0 <= k < i ==> (#[trigger] self.lookahead@[k]) is None,
                forall|k: int| 0 <= k < m ==> (#[trigger] self.children@[k]).depth() < d,
                forall|k: int| 0 <= k < m ==> (#[trigger] self.children@[k]).shape(n),
                forall|k: int| 0 <= k < i ==> (#[trigger] self.children@[k]).wf(p, n),
                forall|k: int| 0 <= k < i ==> (#[trigger] self.children@[k]).floor(p) == origin(),
                max_depth(self.children@, m as int) + 1 == d,
                d == old(self).depth(),
            decreases m - i,
        {
            let ghost ch0 = self.children@;
            self.children[i].reset(p, Ghost(n));
            self.current.set(i, None);
            self.lookahead.set(i, None);
            proof {
                lemma_max_depth_same(ch0, self.children@, m as int);
            }
            i += 1;
        }
        self.last_gaps = None;
        self.floor = Ghost(origin());
        proof {
            reveal(OrderedState::slots_ok);
            reveal(OrderedState::snaps_ok);
            assert forall|k: int| 0 <= k < m implies #[trigger] self.slot_ok(p, k) by {
                assert(self.current@[k] is None);
                assert(self.lookahead@[k] is None);
            }
            assert(self.children@[0].floor(p) == origin());
            assert(self.children@[m - 1].floor(p) == origin());
        }
    }

} // impl OrderedState

// ---------------------------------------------------------------- unordered

/// One operand interval of an unordered node, with the number of
/// positions its parts cover and whether any two of its parts overlap.
#[derive(Clone, Copy)]
pub struct OperandInterval {
    pub interval: Interval,
    pub coverage: u64,
    pub contains_overlap: bool,
}

/// Width sum of the intervals of `w`, saturating at `u64::MAX`.
pub open spec fn window_coverage(w: Seq<Interval>) -> int
    decreases w.len(),
{
    if w.len() == 0 {
        0
    } else {
        let rest = window_coverage(w.drop_last());
        let total = rest + spec_width(w.last());
        if total > u64::MAX { u64::MAX as int } else { total }
    }
}

/// Two neighbouring intervals of `w` overlap.
pub open spec fn window_overlaps(w: Seq<Interval>) -> bool {
    exists|i: int, j: int| 0 <= i && j == i + 1 && j < w.len() && #[trigger] spec_overlaps(w[i], w[j])
}

/// Each interval of `w` is no earlier than those before it, in both coordinates.
pub open spec fn monotone(w: Seq<Interval>) -> bool {
    forall|i: int, j: int| 0 <= i < j < w.len() ==> le2(#[trigger] w[i], #[trigger] w[j])
}

/// The span from the first interval's start to the last one's end.
pub open spec fn window_span(w: Seq<Interval>) -> Interval {
    Interval { start: w[0].start, end: w.last().end }
}

/// Coverage and neighbour overlap of a window of well-formed intervals.
fn measure_window(w: &VecDeque<Interval>) -> (r: (u64, bool))
    requires
        forall|i: int| 0 <= i < w@.len() ==> ok_iv(#[trigger] w@[i]),
    ensures
        r.0 == window_coverage(w@),
        r.1 == window_overlaps(w@),
{
    broadcast use vstd::std_specs::vecdeque::group_vec_dequeue_axioms;
    let len = w.len();
    let mut coverage: u64 = 0;
    let mut overlap = false;
    let mut i: usize = 0;
    while i < len
        invariant
            len == w@.len(),
            i <= len,
            forall|k: int| 0 <= k < w@.len() ==> ok_iv(#[trigger] w@[k]),
            coverage == window_coverage(w@.subrange(0, i as int)),
            overlap == window_overlaps(w@.subrange(0, i as int)),
        decreases len - i,
    {
        let iv = w[i];
        proof {
            let s = w@.subrange(0, i + 1);
            assert(s.drop_last() == w@.subrange(0, i as int));
            assert(s.last() == iv);
            if i > 0 {
                let t = w@.subrange(0, i as int);
                assert(s[i - 1] == w@[i - 1]);
                assert(s[i as int] == iv);
                if window_overlaps(s) {
                    let (a, b) = choose|a: int, b: int| 0 <= a && b == a + 1 && b < s.len()
                        && #[trigger] spec_overlaps(s[a], s[b]);
                    if b < i {
                        assert(s[a] == t[a] && s[b] == t[b]);
                        assert(spec_overlaps(t[a], t[b]));
                    }
                }
                if window_overlaps(t) {
                    let (a, b) = choose|a: int, b: int| 0 <= a && b == a + 1 && b < t.len()
                        && #[trigger] spec_overlaps(t[a], t[b]);
                    assert(s[a] == t[a] && s[b] == t[b]);
                    assert(spec_overlaps(s[a], s[b]));
                }
                if spec_overlaps(w@[i - 1], iv) {
                    assert(spec_overlaps(s[i - 1], s[i as int]));
                }
            } else {
                assert(!window_overlaps(s));
            }
        }
        if i > 0 && w[i - 1].overlaps(iv) {
            overlap = true;
        }
        coverage = coverage.saturating_add(iv.width() as u64);
        i += 1;
    }
    proof {
        assert(w@.subrange(0, len as int) == w@);
    }
    (coverage, overlap)
}

/// Sliding windows of `copies` consecutive intervals of one child that
/// occurs `copies` times among an unordered node's operands.
pub struct RepeatingState {
    child: Box<NodeState>,
    copies: usize,
    window: VecDeque<Interval>,
    exhausted: bool,
    floor: Ghost<Interval>,
}

impl RepeatingState {
    pub closed spec fn wf<P: TermPositions>(&self, p: &P, n: nat) -> bool
        decreases self,
    {
        let w = self.window@;
        &&& self.child.wf(p, n)
        &&& self.copies >= 2
        &&& w.len() <= self.copies
        &&& forall|i: int| 0 <= i < w.len() ==> ok_iv(#[trigger] w[i])
        &&& monotone(w)
        &&& !self.exhausted && w.len() > 0 ==> w.last() == self.child.floor(p)
        &&& !self.exhausted ==> (w.len() == 0 && self.floor@ == origin())
            || (w.len() == self.copies && self.floor@ == window_span(w))
        &&& w.len() > 0 ==> self.child.started(p)
        &&& strict_positions(p, n) ==> strictly_monotone(w)
    }

    /// An operand interval has been produced (or the child ran out) since
    /// the last reset.
    pub closed spec fn started<P: TermPositions>(&self, p: &P) -> bool {
        self.window@.len() > 0 || self.exhausted
    }

    pub closed spec fn fuel<P: TermPositions>(&self, p: &P) -> nat
        decreases self, 0nat,
    {
        if self.exhausted { 0 } else { self.child.fuel(p) }
    }

    pub closed spec fn shape(&self, n: nat) -> bool
        decreases self,
    {
        self.child.shape(n) && self.copies >= 2
    }

    proof fn lemma_wf_shape<P: TermPositions>(&self, p: &P, n: nat)
        requires
            self.wf(p, n),
        ensures
            self.shape(n),
        decreases self,
    {
        self.child.lemma_wf_shape(p, n);
    }

    pub closed spec fn floor<P: TermPositions>(&self, p: &P) -> Interval {
        self.floor@
    }

    pub closed spec fn finished<P: TermPositions>(&self, p: &P) -> bool
        decreases self,
    {
        self.exhausted || self.child.finished(p)
    }

    pub closed spec fn depth(&self) -> nat
        decreases self, 0nat,
    {
        self.child.depth() + 1
    }

    fn new(child: NodeState, copies: usize) -> (r: Self)
        requires
            copies >= 2,
        ensures
            r.child == child,
            r.copies == copies,
            r.window@.len() == 0,
            !r.exhausted,
            r.floor@ == origin(),
    {
        RepeatingState { child: Box::new(child), copies, window: VecDeque::new(), exhausted: false, floor: Ghost(origin()) }
    }

    fn reset<P: TermPositions>(&mut self, p: &P, Ghost(n): Ghost<nat>)
        requires
            old(self).shape(n),
        ensures
            final(self).wf(p, n),
            final(self).shape(n),
            final(self).depth() == old(self).depth(),
            final(self).floor(p) == origin(),
        decreases old(self).depth(), 0nat,
    {
        self.child.reset(p, Ghost(n));
        self.window = VecDeque::new();
        self.exhausted = false;
        self.floor = Ghost(origin());
    }

    fn next_interval<P: TermPositions>(&mut self, p: &P, Ghost(n): Ghost<nat>) -> (r: Option<OperandInterval>)
        requires
            old(self).wf(p, n),
            positions_ok(p, n),
        ensures
            final(self).wf(p, n),
            final(self).depth() == old(self).depth(),
            final(self).fuel(p) <= old(self).fuel(p),
            r is Some ==> final(self).fuel(p) < old(self).fuel(p),
            le2(old(self).floor(p), final(self).floor(p)),
            r matches Some(o) ==> ok_iv(o.interval) && le2(old(self).floor(p), o.interval)
                && final(self).floor(p) == o.interval
                && final(self).window@.len() == final(self).copies
                && o.interval == window_span(final(self).window@)
                && o.coverage == window_coverage(final(self).window@)
                && o.contains_overlap == window_overlaps(final(self).window@),
            r is None ==> final(self).finished(p),
            old(self).finished(p) ==> r is None,
            old(self).started(p) ==> final(self).started(p),
            r is Some ==> final(self).started(p),
            strict_positions(p, n) && old(self).started(p) && r is Some ==> lt2(old(self).floor(p), r->0.interval),
        decreases old(self).depth(), 0nat,
    {
        broadcast use vstd::std_specs::vecdeque::group_vec_dequeue_axioms;
        if self.exhausted {
            return None;
        }
        let ghost old_w = self.window@;
        if self.window.len() == self.copies {
            self.window.pop_front();
            proof {
                if strict_positions(p, n) {
                    assert forall|i: int, j: int| 0 <= i < j < self.window@.len() implies
                        lt2(#[trigger] self.window@[i], #[trigger] self.window@[j]) by {
                        assert(self.window@[i] == old_w[i + 1] && self.window@[j] == old_w[j + 1]);
                    }
                }
                assert(self.window@.last() == old_w.last());
            }
        }
        let ghost start_fuel = self.child.fuel(p);
        let ghost d = self.child.depth();
        while self.window.len() < self.copies
            invariant
                self.child.wf(p, n),
                positions_ok(p, n),
                self.child.depth() == d,
                old(self).depth() == d + 1,
                !self.exhausted,
                self.copies == old(self).copies,
                self.copies >= 2,
                self.floor@ == old(self).floor@,
                self.window@.len() <= self.copies,
                self.window@.len() < self.copies || self.child.fuel(p) < start_fuel,
                self.child.fuel(p) <= start_fuel,
                start_fuel == old(self).child.fuel(p),
                forall|i: int| 0 <= i < self.window@.len() ==> ok_iv(#[trigger] self.window@[i]),
                monotone(self.window@),
                self.window@.len() > 0 ==> self.window@.last() == self.child.floor(p),
                le2(old(self).child.floor(p), self.child.floor(p)),
                old_w.len() == 0 ==> self.floor@ == origin(),
                old_w.len() > 0 ==> old_w.len() == self.copies && self.floor@ == window_span(old_w)
                    && old_w.len() >= 2 && self.window@.len() >= 1 && self.window@[0] == old_w[1],
                old_w.len() > 0 ==> old_w.last() == old(self).child.floor(p),
                forall|i: int| 0 <= i < old_w.len() ==> ok_iv(#[trigger] old_w[i]),
                monotone(old_w),
                old(self).child.finished(p) ==> self.child.finished(p),
                old_w == old(self).window@,
                old(self).child.finished(p) ==> self.window@.len() < self.copies,
                self.window@.len() > 0 ==> self.child.started(p),
                old(self).child.started(p) ==> self.child.started(p),
                strict_positions(p, n) ==> strictly_monotone(self.window@) && strictly_monotone(old_w),
                strict_positions(p, n) && old_w.len() > 0 ==> self.window@.len() >= 1
                    && self.window@.last().end >= old_w.last().end
                    && (self.window@.len() == self.copies ==> self.window@.last().end > old_w.last().end),
            decreases self.copies - self.window@.len(),
        {
            match self.child.next_interval(p, Ghost(n)) {
                Some(iv) => {
                    proof {
                        if self.window@.len() > 0 {
                            assert(le2(self.window@.last(), iv));
                        }
                    }
                    let ghost before = self.window@;
                    self.window.push_back(iv);
                    proof {
                        assert forall|i: int, j: int| 0 <= i < j < self.window@.len() implies
                            le2(#[trigger] self.window@[i], #[trigger] self.window@[j]) by {
                            if j == self.window@.len() - 1 && i < j {
                                assert(le2(before[i], before.last()));
                            }
                        }
                        if strict_positions(p, n) {
                            assert forall|i: int, j: int| 0 <= i < j < self.window@.len() implies
                                lt2(#[trigger] self.window@[i], #[trigger] self.window@[j]) by {
                                if j == self.window@.len() - 1 && i < j {
                                    assert(lt2(before[i], before.last()) || i == before.len() - 1);
                                } else {
                                    assert(before[i] == self.window@[i] && before[j] == self.window@[j]);
                                }
                            }
                        }
                    }
                },
                None => {
                    self.exhausted = true;
                    return None;
                },
            }
        }
        let len = self.window.len();
        let start = self.window[0].start;
        let end = self.window[len - 1].end;
        proof {
            assert(le2(self.window@[0], self.window@[len - 1]));
        }
        let (coverage, contains_overlap) = measure_window(&self.window);
        let interval = Interval::new(start, end);
        proof {
            if old_w.len() > 0 {
                assert(le2(old_w[0], old_w[1]));
                if strict_positions(p, n) {
                    assert(lt2(old_w[0], old_w[1]));
                }
            }
        }
        self.floor = Ghost(interval);
        Some(OperandInterval { interval, coverage, contains_overlap })
    }
}

/// An operand of an unordered node: a child that occurs once, or one that
/// occurs several times and is read through sliding windows.
pub enum UnorderedChild {
    Single(NodeState),
    Repeated(RepeatingState),
}

impl UnorderedChild {
    pub closed spec fn wf<P: TermPositions>(&self, p: &P, n: nat) -> bool
        decreases self,
    {
        match self {
            UnorderedChild::Single(s) => s.wf(p, n),
            UnorderedChild::Repeated(r) => r.wf(p, n),
        }
    }

    pub closed spec fn fuel<P: TermPositions>(&self, p: &P) -> nat
        decreases self, 0nat,
    {
        match self {
            UnorderedChild::Single(s) => s.fuel(p),
            UnorderedChild::Repeated(r) => r.fuel(p),
        }
    }

    pub closed spec fn shape(&self, n: nat) -> bool
        decreases self,
    {
        match self {
            UnorderedChild::Single(s) => s.shape(n),
            UnorderedChild::Repeated(r) => r.shape(n),
        }
    }

    proof fn lemma_wf_shape<P: TermPositions>(&self, p: &P, n: nat)
        requires
            self.wf(p, n),
        ensures
            self.shape(n),
        decreases self,
    {
        match self {
            UnorderedChild::Single(s) => s.lemma_wf_shape(p, n),
            UnorderedChild::Repeated(r) => r.lemma_wf_shape(p, n),
        }
    }

    pub closed spec fn floor<P: TermPositions>(&self, p: &P) -> Interval
        decreases self,
    {
        match self {
            UnorderedChild::Single(s) => s.floor(p),
            UnorderedChild::Repeated(r) => r.floor(p),
        }
    }

    pub closed spec fn finished<P: TermPositions>(&self, p: &P) -> bool
        decreases self,
    {
        match self {
            UnorderedChild::Single(s) => s.finished(p),
            UnorderedChild::Repeated(r) => r.finished(p),
        }
    }

    /// The operand has produced an interval since the last reset.
    pub closed spec fn started<P: TermPositions>(&self, p: &P) -> bool
        decreases self,
    {
        match self {
            UnorderedChild::Single(s) => s.started(p),
            UnorderedChild::Repeated(r) => r.started(p),
        }
    }

    pub closed spec fn depth(&self) -> nat
        decreases self, 0nat,
    {
        match self {
            UnorderedChild::Single(s) => s.depth() + 1,
            UnorderedChild::Repeated(r) => r.depth() + 1,
        }
    }

    fn new(state: NodeState, copies: usize) -> (r: Self)
        requires
            copies >= 1,
        ensures
            copies == 1 ==> r == UnorderedChild::Single(state),
            copies > 1 ==> (r matches UnorderedChild::Repeated(rs) && rs.child == state && rs.copies == copies
                && rs.window@.len() == 0 && !rs.exhausted && rs.floor@ == origin()),
    {
        if copies == 1 {
            UnorderedChild::Single(state)
        } else {
            UnorderedChild::Repeated(RepeatingState::new(state, copies))
        }
    }

    fn reset<P: TermPositions>(&mut self, p: &P, Ghost(n): Ghost<nat>)
        requires
            old(self).shape(n),
        ensures
            final(self).wf(p, n),
            final(self).shape(n),
            final(self).depth() == old(self).depth(),
            final(self).floor(p) == origin(),
        decreases old(self).depth(), 0nat,
    {
        match self {
            UnorderedChild::Single(s) => s.reset(p, Ghost(n)),
            UnorderedChild::Repeated(r) => r.reset(p, Ghost(n)),
        }
    }

    fn next_interval<P: TermPositions>(&mut self, p: &P, Ghost(n): Ghost<nat>) -> (r: Option<OperandInterval>)
        requires
            old(self).wf(p, n),
            positions_ok(p, n),
        ensures
            final(self).wf(p, n),
            final(self).depth() == old(self).depth(),
            final(self).fuel(p) <= old(self).fuel(p),
            r is Some ==> final(self).fuel(p) < old(self).fuel(p),
            le2(old(self).floor(p), final(self).floor(p)),
            r matches Some(o) ==> ok_iv(o.interval) && le2(old(self).floor(p), o.interval)
                && final(self).floor(p) == o.interval,
            r matches Some(o) ==> (*old(self) is Single ==> o.coverage == spec_width(o.interval) && !o.contains_overlap),
            r is None ==> final(self).finished(p),
            old(self).finished(p) ==> r is None,
            old(self).started(p) ==> final(self).started(p),
            r is Some ==> final(self).started(p),
            strict_positions(p, n) && old(self).started(p) && r is Some ==> lt2(old(self).floor(p), r->0.interval),

        decreases old(self).depth(), 1nat,
    {
        match self {
            UnorderedChild::Single(s) => match s.next_interval(p, Ghost(n)) {
                Some(interval) => Some(OperandInterval {
                    interval,
                    coverage: interval.width() as u64,
                    contains_overlap: false,
                }),
                None => None,
            },
            UnorderedChild::Repeated(r) => r.next_interval(p, Ghost(n)),
        }
    }
}

/// Total fuel of the first `k` operands.
pub open spec fn ufuel_sum<P: TermPositions>(ch: Seq<UnorderedChild>, p: &P, k: int) -> nat
    decreases ch, k,
{
    if k <= 0 || k > ch.len() {
        0
    } else {
        ufuel_sum(ch, p, k - 1) + ch[k - 1].fuel(p)
    }
}

/// Changing one operand's fuel changes the total by the same amount.
pub proof fn lemma_ufuel_sum_update<P: TermPositions>(ch: Seq<UnorderedChild>, ch2: Seq<UnorderedChild>, p: &P, i: int, k: int)
    requires
        0 <= i,
        k <= ch.len(),
        ch2.len() == ch.len(),
        forall|j: int| 0 <= j < k && j != i ==> (#[trigger] ch2[j]).fuel(p) == ch[j].fuel(p),
    ensures
        i < k ==> ufuel_sum(ch2, p, k) + ch[i].fuel(p) == ufuel_sum(ch, p, k) + ch2[i].fuel(p),
        i >= k ==> ufuel_sum(ch2, p, k) == ufuel_sum(ch, p, k),
    decreases k,
{
    if k > 0 {
        lemma_ufuel_sum_update(ch, ch2, p, i, k - 1);
    }
}

/// Greatest depth among the first `k` operands.
pub open spec fn umax_depth(ch: Seq<UnorderedChild>, k: int) -> nat
    decreases ch, k,
{
    if k <= 0 || k > ch.len() {
        0
    } else {
        let d = umax_depth(ch, k - 1);
        if ch[k - 1].depth() > d { ch[k - 1].depth() } else { d }
    }
}

/// Every operand is no deeper than the greatest depth.
pub proof fn lemma_umax_depth_bounds(ch: Seq<UnorderedChild>, k: int)
    requires
        k <= ch.len(),
    ensures
        forall|j: int| 0 <= j < k ==> #[trigger] ch[j].depth() <= umax_depth(ch, k),
    decreases k,
{
    if k > 0 {
        lemma_umax_depth_bounds(ch, k - 1);
    }
}

/// Operands of unchanged depths keep the greatest depth.
pub proof fn lemma_umax_depth_same(ch: Seq<UnorderedChild>, ch2: Seq<UnorderedChild>, k: int)
    requires
        k <= ch.len(),
        ch2.len() == ch.len(),
        forall|j: int| 0 <= j < k ==> #[trigger] ch2[j].depth() == ch[j].depth(),
    ensures
        umax_depth(ch2, k) == umax_depth(ch, k),
    decreases k,
{
    if k > 0 {
        lemma_umax_depth_same(ch, ch2, k - 1);
        assert(ch2[k - 1].depth() == ch[k - 1].depth());
    }
}

/// Every slot holds an interval.
pub open spec fn all_present(s: Seq<Option<OperandInterval>>) -> bool {
    forall|k: int| 0 <= k < s.len() ==> (#[trigger] s[k]) is Some
}

/// Smallest start among the present slots of the first `k`.
pub open spec fn min_start(s: Seq<Option<OperandInterval>>, k: int) -> int
    decreases k,
{
    if k <= 0 {
        u32::MAX as int + 1
    } else {
        let r = min_start(s, k - 1);
        match s[k - 1] {
            Some(o) => if o.interval.start < r { o.interval.start as int } else { r },
            None => r,
        }
    }
}

/// Greatest end among the present slots of the first `k`.
pub open spec fn max_end(s: Seq<Option<OperandInterval>>, k: int) -> int
    decreases k,
{
    if k <= 0 {
        -1
    } else {
        let r = max_end(s, k - 1);
        match s[k - 1] {
            Some(o) => if o.interval.end > r { o.interval.end as int } else { r },
            None => r,
        }
    }
}

/// The smallest interval covering every present slot.
pub open spec fn slots_span(s: Seq<Option<OperandInterval>>) -> Interval {
    Interval { start: min_start(s, s.len() as int) as u32, end: max_end(s, s.len() as int) as u32 }
}

/// Two different present slots overlap.
pub open spec fn pair_overlap(s: Seq<Option<OperandInterval>>) -> bool {
    exists|j: int, l: int| 0 <= j < s.len() && 0 <= l < s.len() && j != l
        && (#[trigger] s[j]) is Some && (#[trigger] s[l]) is Some
        && spec_overlaps(s[j]->0.interval, s[l]->0.interval)
}

/// Some present slot's own parts overlap.
pub open spec fn inner_overlap(s: Seq<Option<OperandInterval>>) -> bool {
    exists|k: int| 0 <= k < s.len() && (#[trigger] s[k]) is Some && s[k]->0.contains_overlap
}

/// Coverage of the present slots of the first `k`, saturating at `u64::MAX`.
pub open spec fn slots_coverage(s: Seq<Option<OperandInterval>>, k: int) -> int
    decreases k,
{
    if k <= 0 {
        0
    } else {
        let total = slots_coverage(s, k - 1) + match s[k - 1] {
            Some(o) => o.coverage as int,
            None => 0,
        };
        if total > u64::MAX { u64::MAX as int } else { total }
    }
}

/// Gap count of `span` over the present slots: none when any parts overlap,
/// else the positions of `span` that no part covers.
pub open spec fn slots_gaps(s: Seq<Option<OperandInterval>>, span: Interval) -> Option<u64> {
    let cov = slots_coverage(s, s.len() as int);
    if pair_overlap(s) || inner_overlap(s) || spec_width(span) < cov {
        None
    } else {
        Some((spec_width(span) - cov) as u64)
    }
}

/// Priority order among slots: by start, then by larger end, then by index.
pub open spec fn slot_precedes(a: Interval, i: int, b: Interval, j: int) -> bool {
    a.start < b.start || (a.start == b.start && (a.end > b.end || (a.end == b.end && i <= j)))
}

/// Whether every slot holds an interval.
fn slots_full(s: &Vec<Option<OperandInterval>>) -> (r: bool)
    ensures
        r == all_present(s@),
{
    let mut i: usize = 0;
    while i < s.len()
        invariant
            i <= s@.len(),
            forall|k: int| 0 <= k < i ==> (#[trigger] s@[k]) is Some,
        decreases s@.len() - i,
    {
        if s[i].is_none() {
            return false;
        }
        i += 1;
    }
    true
}

/// The present slot first in priority order.
fn slots_minimum(s: &Vec<Option<OperandInterval>>) -> (r: Option<(usize, Interval)>)
    ensures
        r is None <==> forall|k: int| 0 <= k < s@.len() ==> (#[trigger] s@[k]) is None,
        r matches Some((i, iv)) ==> i < s@.len() && s@[i as int] is Some && s@[i as int]->0.interval == iv
            && forall|k: int| 0 <= k < s@.len() && (#[trigger] s@[k]) is Some ==>
                slot_precedes(iv, i as int, s@[k]->0.interval, k),
{
    let mut best: Option<(usize, Interval)> = None;
    let mut i: usize = 0;
    while i < s.len()
        invariant
            i <= s@.len(),
            best is None <==> forall|k: int| 0 <= k < i ==> (#[trigger] s@[k]) is None,
            best matches Some((b, biv)) ==> b < i && s@[b as int] is Some && s@[b as int]->0.interval == biv
                && forall|k: int| 0 <= k < i && (#[trigger] s@[k]) is Some ==>
                    slot_precedes(biv, b as int, s@[k]->0.interval, k),
        decreases s@.len() - i,
    {
        match s[i] {
            Some(o) => {
                let iv = o.interval;
                let better = match best {
                    None => true,
                    Some((_, b)) => iv.start < b.start || (iv.start == b.start && iv.end > b.end),
                };
                if better {
                    best = Some((i, iv));
                }
            },
            None => {},
        }
        i += 1;
    }
    best
}

/// The smallest interval covering every present slot.
fn span_of_slots(s: &Vec<Option<OperandInterval>>) -> (r: Interval)
    requires
        s@.len() >= 1,
        all_present(s@),
        forall|k: int| 0 <= k < s@.len() ==> ok_iv((#[trigger] s@[k])->0.interval),
    ensures
        r == slots_span(s@),
        ok_iv(r),
        forall|k: int| 0 <= k < s@.len() ==> r.start <= (#[trigger] s@[k])->0.interval.start
            && s@[k]->0.interval.end <= r.end,
        exists|k: int| 0 <= k < s@.len() && (#[trigger] s@[k])->0.interval.end == r.end,
        exists|k: int| 0 <= k < s@.len() && (#[trigger] s@[k])->0.interval.start == r.start,
{
    let mut lo: u32 = u32::MAX;
    let mut hi: u32 = 0;
    let mut i: usize = 0;
    let ghost mut wk: int = 0;
    let ghost mut sk: int = 0;
    while i < s.len()
        invariant
            i <= s@.len(),
            s@.len() >= 1,
            all_present(s@),
            forall|k: int| 0 <= k < s@.len() ==> ok_iv((#[trigger] s@[k])->0.interval),
            i == 0 ==> lo == u32::MAX && hi == 0,
            i > 0 ==> lo == min_start(s@, i as int) && hi == max_end(s@, i as int),
            i > 0 ==> lo <= hi && hi < u32::MAX,
            i > 0 ==> 0 <= wk < i && s@[wk]->0.interval.end == hi,
            i > 0 ==> 0 <= sk < i && s@[sk]->0.interval.start == lo,
            forall|k: int| 0 <= k < i ==> lo <= (#[trigger] s@[k])->0.interval.start
                && s@[k]->0.interval.end <= hi,
        decreases s@.len() - i,
    {
        let iv = match s[i] {
            Some(o) => o.interval,
            None => Interval { start: 0, end: 0 },
        };
        proof {
            assert(s@[i as int] is Some);
            assert(iv == s@[i as int]->0.interval);
            assert(min_start(s@, i + 1) == if iv.start < min_start(s@, i as int) { iv.start as int } else { min_start(s@, i as int) });
            assert(max_end(s@, i + 1) == if iv.end > max_end(s@, i as int) { iv.end as int } else { max_end(s@, i as int) });
            if i == 0 {
                assert(min_start(s@, 0) == u32::MAX as int + 1);
                assert(max_end(s@, 0) == -1);
            }
        }
        if i == 0 || iv.start < lo {
            lo = iv.start;
            proof { sk = i as int; }
        }
        if i == 0 || iv.end > hi {
            hi = iv.end;
            proof { wk = i as int; }
        }
        i += 1;
    }
    Interval { start: lo, end: hi }
}

/// Coverage of the present slots, saturating.
fn coverage_of_slots(s: &Vec<Option<OperandInterval>>) -> (r: u64)
    ensures
        r == slots_coverage(s@, s@.len() as int),
{
    let mut total: u64 = 0;
    let mut i: usize = 0;
    while i < s.len()
        invariant
            i <= s@.len(),
            total == slots_coverage(s@, i as int),
        decreases s@.len() - i,
    {
        let c: u64 = match s[i] {
            Some(o) => o.coverage,
            None => 0,
        };
        total = total.saturating_add(c);
        i += 1;
    }
    total
}

/// Whether two different present slots overlap, or some slot's own parts do.
fn slots_overlap(s: &Vec<Option<OperandInterval>>) -> (r: bool)
    ensures
        r == (pair_overlap(s@) || inner_overlap(s@)),
{
    let len = s.len();
    let mut j: usize = 0;
    while j < len
        invariant
            len == s@.len(),
            j <= len,
            forall|a: int, b: int| 0 <= a < j && 0 <= b < len && a != b && (#[trigger] s@[a]) is Some
                && (#[trigger] s@[b]) is Some ==> !spec_overlaps(s@[a]->0.interval, s@[b]->0.interval),
            forall|a: int| 0 <= a < j && (#[trigger] s@[a]) is Some ==> !s@[a]->0.contains_overlap,
        decreases len - j,
    {
        match s[j] {
            Some(a) => {
                if a.contains_overlap {
                    proof { assert(inner_overlap(s@)); }
                    return true;
                }
                let mut l: usize = 0;
                while l < len
                    invariant
                        len == s@.len(),
                        j < len,
                        l <= len,
                        s@[j as int] == Some(a),
                        forall|b: int| 0 <= b < l && b != j && (#[trigger] s@[b]) is Some ==>
                            !spec_overlaps(a.interval, s@[b]->0.interval),
                    decreases len - l,
                {
                    if l != j {
                        match s[l] {
                            Some(b) => {
                                if a.interval.overlaps(b.interval) {
                                    proof {
                                        assert(s@[j as int] is Some && s@[l as int] is Some);
                                        assert(pair_overlap(s@));
                                    }
                                    return true;
                                }
                            },
                            None => {},
                        }
                    }
                    l += 1;
                }
            },
            None => {},
        }
        j += 1;
    }
    proof {
        if pair_overlap(s@) {
            let (a, b) = choose|a: int, b: int| 0 <= a < s@.len() && 0 <= b < s@.len() && a != b
                && (#[trigger] s@[a]) is Some && (#[trigger] s@[b]) is Some
                && spec_overlaps(s@[a]->0.interval, s@[b]->0.interval);
            assert(false);
        }
    }
    false
}

/// Gap count of `span` over the present slots.
fn gaps_of_slots(s: &Vec<Option<OperandInterval>>, span: Interval) -> (r: Option<u64>)
    requires
        ok_iv(span),
    ensures
        r == slots_gaps(s@, span),
{
    if slots_overlap(s) {
        return None;
    }
    let cov = coverage_of_slots(s);
    (span.width() as u64).checked_sub(cov)
}

/// Unordered node: minimal intervals holding one interval of every operand,
/// in any order. Operands that occur several times are read through
/// sliding windows of that many consecutive intervals.
pub struct UnorderedState {
    children: Vec<UnorderedChild>,
    slots: Vec<Option<OperandInterval>>,
    prev: Option<Interval>,
    last_gaps: Option<u64>,
    /// For each operand, the position of the query operand it was built from.
    firsts: Ghost<Seq<int>>,
    /// For each query operand, the operand that stands for it.
    owners: Ghost<Seq<int>>,
    /// The operand intervals that made up the last interval produced.
    window: Ghost<Seq<Option<OperandInterval>>>,
}

impl UnorderedState {
    pub closed spec fn wf<P: TermPositions>(&self, p: &P, n: nat) -> bool
        decreases self,
    {
        let ch = self.children@;
        let sl = self.slots@;
        let m = ch.len();
        &&& m >= 1
        &&& sl.len() == m
        &&& forall|k: int| 0 <= k < m ==> (#[trigger] ch[k]).wf(p, n)
        &&& forall|k: int| 0 <= k < m && (#[trigger] sl[k]) is Some ==> ok_iv(sl[k]->0.interval)
            && sl[k]->0.interval == ch[k].floor(p)
        &&& self.prev matches Some(pv) ==> ok_iv(pv)
            && (forall|k: int| 0 <= k < m ==> pv.start <= (#[trigger] ch[k]).floor(p).start)
            && (exists|k: int| 0 <= k < m && pv.end <= (#[trigger] ch[k]).floor(p).end)
        &&& forall|k: int| 0 <= k < m && (#[trigger] sl[k]) is Some ==> ch[k].started(p)
        &&& strict_positions(p, n) ==> (self.prev matches Some(pv) ==> self.later_spans_end_after(p, pv))
    }

    /// Operand `k` keeps every later span that does not contain `pv` from
    /// ending where `pv` ends: it already ends after `pv`, or its last
    /// interval is `pv` itself.
    pub closed spec fn witness_at<P: TermPositions>(&self, p: &P, pv: Interval, k: int) -> bool {
        self.children@[k].floor(p).end > pv.end || (self.children@[k].started(p) && self.children@[k].floor(p) == pv)
    }

    /// Some operand is a witness for `pv`, or the node is finished.
    pub closed spec fn later_spans_end_after<P: TermPositions>(&self, p: &P, pv: Interval) -> bool {
        self.finished(p) || exists|k: int| 0 <= k < self.children@.len() && #[trigger] self.witness_at(p, pv, k)
    }

    /// One more interval is owed when every slot is filled and their span
    /// does not contain the previous result.
    pub closed spec fn pending(&self) -> nat {
        if all_present(self.slots@) && (self.prev matches Some(pv) ==> !spec_contains(slots_span(self.slots@), pv)) {
            1
        } else {
            0
        }
    }

    pub closed spec fn fuel<P: TermPositions>(&self, p: &P) -> nat
        decreases self, 0nat,
    {
        ufuel_sum(self.children@, p, self.children@.len() as int) + self.pending()
    }

    pub closed spec fn shape(&self, n: nat) -> bool
        decreases self,
    {
        &&& self.children@.len() >= 1
        &&& self.slots@.len() == self.children@.len()
        &&& forall|k: int| 0 <= k < self.children@.len() ==> (#[trigger] self.children@[k]).shape(n)
    }

    proof fn lemma_wf_shape<P: TermPositions>(&self, p: &P, n: nat)
        requires
            self.wf(p, n),
        ensures
            self.shape(n),
        decreases self,
    {
        assert forall|k: int| 0 <= k < self.children@.len() implies (#[trigger] self.children@[k]).shape(n) by {
            self.children@[k].lemma_wf_shape(p, n);
        }
    }

    pub closed spec fn floor<P: TermPositions>(&self, p: &P) -> Interval {
        match self.prev {
            Some(iv) => iv,
            None => origin(),
        }
    }

    pub closed spec fn finished<P: TermPositions>(&self, p: &P) -> bool
        decreases self,
    {
        exists|k: int| 0 <= k < self.children@.len() && self.slots@[k] is None
            && (#[trigger] self.children@[k]).finished(p)
    }

    pub closed spec fn depth(&self) -> nat
        decreases self, 0nat,
    {
        umax_depth(self.children@, self.children@.len() as int) + 1
    }

    pub closed spec fn spec_gaps(&self) -> Option<u64> {
        self.last_gaps
    }

    pub closed spec fn spec_prev(&self) -> Option<Interval> {
        self.prev
    }

    /// The operand intervals, one per operand, that made up the last
    /// interval produced.
    pub closed spec fn window(&self) -> Seq<Option<OperandInterval>> {
        self.window@
    }

    /// An interval has been produced since the last reset.
    pub closed spec fn started<P: TermPositions>(&self, p: &P) -> bool {
        self.prev is Some
    }

    proof fn lemma_child_depths(&self)
        ensures
            forall|k: int| 0 <= k < self.children@.len() ==> (#[trigger] self.children@[k]).depth() < self.depth(),
    {
        lemma_umax_depth_bounds(self.children@, self.children@.len() as int);
    }

    /// Replace slot `i` by operand `i`'s next interval.
    fn advance_child<P: TermPositions>(&mut self, i: usize, p: &P, Ghost(n): Ghost<nat>) -> (r: Option<OperandInterval>)
        requires
            old(self).wf(p, n),
            positions_ok(p, n),
            i < old(self).children@.len(),
            old(self).children@[i as int].depth() < old(self).depth(),
        ensures
            final(self).wf(p, n),
            final(self).depth() == old(self).depth(),
            final(self).prev == old(self).prev,
            final(self).last_gaps == old(self).last_gaps,
            final(self).children@.len() == old(self).children@.len(),
            final(self).slots@ == old(self).slots@.update(i as int, r),
            forall|k: int| 0 <= k < old(self).children@.len() && k != i ==> #[trigger] final(self).children@[k] == old(self).children@[k],
            final(self).children@[i as int].depth() == old(self).children@[i as int].depth(),
            forall|k: int| 0 <= k < old(self).children@.len() ==>
                le2((#[trigger] old(self).children@[k]).floor(p), final(self).children@[k].floor(p)),
            ufuel_sum(final(self).children@, p, final(self).children@.len() as int)
                <= ufuel_sum(old(self).children@, p, old(self).children@.len() as int),
            r is Some ==> ufuel_sum(final(self).children@, p, final(self).children@.len() as int)
                < ufuel_sum(old(self).children@, p, old(self).children@.len() as int),
            r is None ==> final(self).children@[i as int].finished(p),
            old(self).children@[i as int].finished(p) ==> r is None,
        decreases old(self).depth(), 0nat,
    {
        let m = self.children.len();
        let ghost o = *self;
        let next = self.children[i].next_interval(p, Ghost(n));
        self.slots.set(i, next);
        proof {
            lemma_ufuel_sum_update(o.children@, self.children@, p, i as int, m as int);
            lemma_umax_depth_same(o.children@, self.children@, m as int);
            assert forall|k: int| 0 <= k < m implies
                le2((#[trigger] o.children@[k]).floor(p), self.children@[k].floor(p)) by {
                if k != i {
                    assert(self.children@[k] == o.children@[k]);
                }
            }
            if strict_positions(p, n) && o.prev is Some {
                let pv = o.prev->0;
                if o.finished(p) {
                    let j = choose|k: int| 0 <= k < o.children@.len() && o.slots@[k] is None
                        && (#[trigger] o.children@[k]).finished(p);
                    if j != i {
                        assert(self.children@[j] == o.children@[j]);
                        assert(self.slots@[j] is None);
                    } else {
                        assert(next is None);
                    }
                    assert(self.finished(p));
                } else {
                    let k = choose|k: int| 0 <= k < o.children@.len() && #[trigger] o.witness_at(p, pv, k);
                    if k != i {
                        assert(self.children@[k] == o.children@[k]);
                        assert(self.witness_at(p, pv, k));
                    } else if next is None {
                        assert(self.slots@[i as int] is None);
                        assert(self.finished(p));
                    } else {
                        assert(self.witness_at(p, pv, k));
                    }
                }
                assert(self.later_spans_end_after(p, pv));
            }
            assert forall|k: int| 0 <= k < m && (#[trigger] self.slots@[k]) is Some implies self.children@[k].started(p) by {
                if k != i {
                    assert(self.children@[k] == o.children@[k]);
                }
            }
            if o.prev is Some {
                let pv = o.prev->0;
                let w = choose|k: int| 0 <= k < m && pv.end <= (#[trigger] o.children@[k]).floor(p).end;
                assert(le2(o.children@[w].floor(p), self.children@[w].floor(p)));
                assert forall|k: int| 0 <= k < m implies pv.start <= (#[trigger] self.children@[k]).floor(p).start by {
                    assert(le2(o.children@[k].floor(p), self.children@[k].floor(p)));
                }
            }
        }
        next
    }

    /// The span of filled slots is no earlier than the previous result, and
    /// starts no later than any operand's last interval.
    proof fn lemma_span_above_prev<P: TermPositions>(&self, p: &P, n: nat, sp: Interval)
        requires
            self.wf(p, n),
            all_present(self.slots@),
            forall|k: int| 0 <= k < self.slots@.len() ==> sp.start <= (#[trigger] self.slots@[k])->0.interval.start
                && self.slots@[k]->0.interval.end <= sp.end,
            exists|k: int| 0 <= k < self.slots@.len() && (#[trigger] self.slots@[k])->0.interval.start == sp.start,
        ensures
            self.prev matches Some(pv) ==> le2(pv, sp),
            forall|k: int| 0 <= k < self.children@.len() ==> sp.start <= (#[trigger] self.children@[k]).floor(p).start,
    {
        let m = self.children@.len();
        assert forall|k: int| 0 <= k < m implies sp.start <= (#[trigger] self.children@[k]).floor(p).start by {
            assert(self.slots@[k] is Some);
        }
        if self.prev is Some {
            let pv = self.prev->0;
            let w = choose|k: int| 0 <= k < m && pv.end <= (#[trigger] self.children@[k]).floor(p).end;
            assert(self.slots@[w] is Some);
            let s0 = choose|k: int| 0 <= k < self.slots@.len() && (#[trigger] self.slots@[k])->0.interval.start == sp.start;
            assert(self.slots@[s0] is Some);
            assert(pv.start <= self.children@[s0].floor(p).start);
        }
    }

    /// A span of all the slots that does not contain the previous result
    /// ends after it, when no position list holds a position twice.
    proof fn lemma_span_end_above<P: TermPositions>(&self, p: &P, n: nat, sp: Interval, pv: Interval)
        requires
            self.wf(p, n),
            strict_positions(p, n),
            self.prev == Some(pv),
            all_present(self.slots@),
            forall|k: int| 0 <= k < self.slots@.len() ==> sp.start <= (#[trigger] self.slots@[k])->0.interval.start
                && self.slots@[k]->0.interval.end <= sp.end,
            !spec_contains(sp, pv),
        ensures
            sp.end > pv.end,
    {
        if self.finished(p) {
            let j = choose|k: int| 0 <= k < self.children@.len() && self.slots@[k] is None
                && (#[trigger] self.children@[k]).finished(p);
            assert(self.slots@[j] is Some);
        }
        let k = choose|k: int| 0 <= k < self.children@.len() && #[trigger] self.witness_at(p, pv, k);
        assert(self.slots@[k] is Some);
    }

    /// Whether every slot is filled and their span contains the previous result.
    fn span_covers_prev(&self) -> (r: bool)
        requires
            self.slots@.len() >= 1,
            forall|k: int| 0 <= k < self.slots@.len() && (#[trigger] self.slots@[k]) is Some ==> ok_iv(self.slots@[k]->0.interval),
        ensures
            r == (all_present(self.slots@) && (self.prev matches Some(pv) && spec_contains(slots_span(self.slots@), pv))),
    {
        if !slots_full(&self.slots) {
            return false;
        }
        match self.prev {
            Some(pv) => span_of_slots(&self.slots).contains(pv),
            None => false,
        }
    }

    /// Advance the operand whose slot comes first in priority order.
    fn advance_min<P: TermPositions>(&mut self, p: &P, Ghost(n): Ghost<nat>)
        requires
            old(self).wf(p, n),
            positions_ok(p, n),
            all_present(old(self).slots@),
        ensures
            final(self).wf(p, n),
            final(self).depth() == old(self).depth(),
            final(self).prev == old(self).prev,
            final(self).last_gaps == old(self).last_gaps,
            final(self).children@.len() == old(self).children@.len(),
            forall|k: int| 0 <= k < old(self).children@.len() ==>
                le2((#[trigger] old(self).children@[k]).floor(p), final(self).children@[k].floor(p)),
            ufuel_sum(final(self).children@, p, final(self).children@.len() as int)
                <= ufuel_sum(old(self).children@, p, old(self).children@.len() as int),
            all_present(final(self).slots@) ==> ufuel_sum(final(self).children@, p, final(self).children@.len() as int)
                < ufuel_sum(old(self).children@, p, old(self).children@.len() as int),
            forall|k: int| 0 <= k < final(self).children@.len() && (#[trigger] final(self).slots@[k]) is None ==>
                final(self).children@[k].finished(p),
        decreases old(self).depth(), 1nat,
    {
        proof { self.lemma_child_depths(); }
        match slots_minimum(&self.slots) {
            Some((i, _)) => {
                let ghost o = *self;
                let r = self.advance_child(i, p, Ghost(n));
                proof {
                    if all_present(self.slots@) {
                        assert(self.slots@[i as int] is Some);
                    }
                    assert forall|k: int| 0 <= k < self.children@.len() && (#[trigger] self.slots@[k]) is None implies
                        self.children@[k].finished(p) by {
                        if k != i {
                            assert(o.slots@[k] is Some);
                        }
                    }
                }
            },
            None => {
                proof {
                    assert(self.slots@[0] is Some);
                }
            },
        }
    }

    /// Steps one and two: fill every empty slot, then advance the first
    /// slot while the span of the slots contains the previous result.
    /// Returns false when some operand has run out.
    #[verifier::rlimit(40)]
    #[verifier::spinoff_prover]
    fn fill_slots<P: TermPositions>(&mut self, p: &P, Ghost(n): Ghost<nat>) -> (r: bool)
        requires
            old(self).wf(p, n),
            positions_ok(p, n),
        ensures
            final(self).wf(p, n),
            final(self).depth() == old(self).depth(),
            final(self).prev == old(self).prev,
            final(self).last_gaps == old(self).last_gaps,
            final(self).children@.len() == old(self).children@.len(),
            forall|k: int| 0 <= k < old(self).children@.len() ==>
                le2((#[trigger] old(self).children@[k]).floor(p), final(self).children@[k].floor(p)),
            r == all_present(final(self).slots@),
            r ==> (final(self).prev matches Some(pv) ==> !spec_contains(slots_span(final(self).slots@), pv)),
            ufuel_sum(final(self).children@, p, final(self).children@.len() as int)
                <= ufuel_sum(old(self).children@, p, old(self).children@.len() as int),
            r ==> ufuel_sum(final(self).children@, p, final(self).children@.len() as int) + 1
                <= ufuel_sum(old(self).children@, p, old(self).children@.len() as int) + old(self).pending(),
            !r ==> final(self).finished(p),
            old(self).finished(p) ==> !r,
        decreases old(self).depth(), 2nat,
    {
        proof { self.lemma_child_depths(); }
        let m = self.children.len();
        let ghost o = *self;
        let ghost d = self.depth();
        let ghost start_sum = ufuel_sum(self.children@, p, m as int);
        let ghost mut kf: int = 0;
        proof {
            if o.finished(p) {
                kf = choose|k: int| 0 <= k < o.children@.len() && o.slots@[k] is None
                    && (#[trigger] o.children@[k]).finished(p);
            }
        }
        let mut i: usize = 0;
        while i < m
            invariant
                m == self.children@.len(),
                m == o.children@.len(),
                i <= m,
                self.wf(p, n),
                positions_ok(p, n),
                self.depth() == d,
                d == o.depth(),
                forall|k: int| 0 <= k < m ==> (#[trigger] self.children@[k]).depth() < d,
                self.prev == o.prev,
                self.last_gaps == o.last_gaps,
                forall|k: int| 0 <= k < m ==> le2((#[trigger] o.children@[k]).floor(p), self.children@[k].floor(p)),
                ufuel_sum(self.children@, p, m as int) <= start_sum,
                ufuel_sum(self.children@, p, m as int) < start_sum || self.slots@ == o.slots@,
                forall|k: int| 0 <= k < i && (#[trigger] self.slots@[k]) is None ==> self.children@[k].finished(p),
                forall|k: int| i <= k < m ==> #[trigger] self.slots@[k] == o.slots@[k] && self.children@[k] == o.children@[k],
                o.finished(p) ==> 0 <= kf < m && o.slots@[kf] is None && o.children@[kf].finished(p),
                o.finished(p) && kf < i ==> self.slots@[kf] is None,
                start_sum == ufuel_sum(o.children@, p, m as int),
                o == *old(self),
            decreases m - i,
        {
            let ghost pre = *self;
            assert(forall|k: int| i <= k < m ==> #[trigger] pre.slots@[k] == o.slots@[k]);
            if self.slots[i].is_none() {
                let ghost before = *self;
                let r = self.advance_child(i, p, Ghost(n));
                proof {
                    assert forall|k: int| 0 <= k < m implies le2((#[trigger] o.children@[k]).floor(p), self.children@[k].floor(p)) by {
                        assert(le2(o.children@[k].floor(p), before.children@[k].floor(p)));
                        assert(le2(before.children@[k].floor(p), self.children@[k].floor(p)));
                    }
                    if r is None {
                        assert(self.slots@ == before.slots@);
                    }
                    lemma_umax_depth_same(before.children@, self.children@, m as int);
                }
            }
            proof {
                assert forall|k: int| i < k < m implies #[trigger] self.slots@[k] == o.slots@[k]
                    && self.children@[k] == o.children@[k] by {
                    assert(pre.slots@[k] == o.slots@[k] && pre.children@[k] == o.children@[k]);
                    assert(self.slots@[k] == pre.slots@[k] && self.children@[k] == pre.children@[k]);
                }
            }
            i += 1;
        }
        let ghost filled = *self;
        while self.span_covers_prev()
            invariant
                m == self.children@.len(),
                self.wf(p, n),
                positions_ok(p, n),
                self.depth() == d,
                d == o.depth(),
                forall|k: int| 0 <= k < m ==> (#[trigger] self.children@[k]).depth() < d,
                self.prev == o.prev,
                self.last_gaps == o.last_gaps,
                forall|k: int| 0 <= k < m ==> le2((#[trigger] o.children@[k]).floor(p), self.children@[k].floor(p)),
                ufuel_sum(self.children@, p, m as int) <= start_sum,
                ufuel_sum(self.children@, p, m as int) < start_sum || self.slots@ == o.slots@
                    || !all_present(self.slots@),
                forall|k: int| 0 <= k < m && (#[trigger] self.slots@[k]) is None ==> self.children@[k].finished(p),
                o.finished(p) ==> 0 <= kf < m && self.slots@[kf] is None,
                start_sum == ufuel_sum(o.children@, p, m as int),
                o == *old(self),
            decreases ufuel_sum(self.children@, p, m as int) + if all_present(self.slots@) { 1nat } else { 0nat },
        {
            let ghost before = *self;
            self.advance_min(p, Ghost(n));
            proof {
                self.lemma_child_depths();
                assert forall|k: int| 0 <= k < m implies le2((#[trigger] o.children@[k]).floor(p), self.children@[k].floor(p)) by {
                    assert(le2(o.children@[k].floor(p), before.children@[k].floor(p)));
                    assert(le2(before.children@[k].floor(p), self.children@[k].floor(p)));
                }
                if o.finished(p) {
                    assert(before.slots@[kf] is None);
                    assert(!all_present(before.slots@));
                }
            }
        }
        let full = slots_full(&self.slots);
        proof {
            if !full {
                let k = choose|k: int| 0 <= k < self.slots@.len() && !(#[trigger] self.slots@[k] is Some);
                assert(self.slots@[k] is None);
                assert(self.children@[k].finished(p));
            }
            if full && ufuel_sum(self.children@, p, m as int) == start_sum {
                assert(self.slots@ == o.slots@);
                assert(o.pending() == 1);
            }
        }
        full
    }

    #[verifier::rlimit(60)]
    #[verifier::spinoff_prover]
    fn next_interval<P: TermPositions>(&mut self, p: &P, Ghost(n): Ghost<nat>) -> (r: Option<Interval>)
        requires
            old(self).wf(p, n),
            positions_ok(p, n),
        ensures
            final(self).wf(p, n),
            final(self).depth() == old(self).depth(),
            final(self).fuel(p) <= old(self).fuel(p),
            r is Some ==> final(self).fuel(p) < old(self).fuel(p),
            le2(old(self).floor(p), final(self).floor(p)),
            r matches Some(iv) ==> ok_iv(iv) && le2(old(self).floor(p), iv) && final(self).floor(p) == iv
                && (old(self).prev matches Some(pv) ==> !spec_contains(iv, pv)),
            r matches Some(iv) ==> final(self).window().len() == final(self).children@.len()
                && all_present(final(self).window()) && iv == slots_span(final(self).window())
                && final(self).spec_gaps() == slots_gaps(final(self).window(), iv),
            r is None ==> final(self).finished(p),
            old(self).finished(p) ==> r is None,
            old(self).started(p) ==> final(self).started(p),
            r is Some ==> final(self).started(p),
            starts_after(strict_positions(p, n) && old(self).started(p), old(self).floor(p), r),
            ends_after(strict_positions(p, n) && old(self).started(p), old(self).floor(p), r),
        decreases old(self).depth(), 3nat,
    {
        proof { self.lemma_child_depths(); }
        let m = self.children.len();
        let ghost o = *self;
        let ghost d = self.depth();
        let ghost start_sum = ufuel_sum(self.children@, p, m as int);
        if !self.fill_slots(p, Ghost(n)) {
            return None;
        }
        proof { self.lemma_child_depths(); }
        let mut candidate = span_of_slots(&self.slots);
        proof {
            self.lemma_span_above_prev(p, n, candidate);
            if strict_positions(p, n) && o.prev is Some {
                self.lemma_span_end_above(p, n, candidate, o.prev->0);
            }
        }
        let mut candidate_gaps = gaps_of_slots(&self.slots, candidate);
        let ghost mut cand_slots = self.slots@;
        let ghost mut cw: int = choose|k: int| 0 <= k < self.slots@.len() && (#[trigger] self.slots@[k])->0.interval.end == candidate.end;
        loop
            invariant_except_break
                all_present(self.slots@),
                candidate == slots_span(self.slots@),
            invariant
                m == self.children@.len(),
                self.wf(p, n),
                positions_ok(p, n),
                cand_slots.len() == m,
                all_present(cand_slots),
                candidate == slots_span(cand_slots),
                candidate_gaps == slots_gaps(cand_slots, candidate),
                self.depth() == d,
                d == o.depth(),
                forall|k: int| 0 <= k < m ==> (#[trigger] self.children@[k]).depth() < d,
                self.prev == o.prev,
                forall|k: int| 0 <= k < m ==> le2((#[trigger] o.children@[k]).floor(p), self.children@[k].floor(p)),
                ok_iv(candidate),
                o.prev matches Some(pv) ==> !spec_contains(candidate, pv) && le2(pv, candidate),
                strict_positions(p, n) && o.prev is Some ==> candidate.end > o.prev->0.end,
                forall|k: int| 0 <= k < m ==> candidate.start <= (#[trigger] self.children@[k]).floor(p).start,
                0 <= cw < m && candidate.end <= self.children@[cw].floor(p).end,
                ufuel_sum(self.children@, p, m as int) + 1 <= start_sum + o.pending(),
                start_sum == ufuel_sum(o.children@, p, m as int),
                o == *old(self),
            ensures
                all_present(self.slots@) && !spec_contains(slots_span(self.slots@), candidate) ==>
                    ufuel_sum(self.children@, p, m as int) + 2 <= start_sum + o.pending(),
                strict_positions(p, n) ==> self.finished(p)
                    || exists|k: int| 0 <= k < m && #[trigger] self.witness_at(p, candidate, k),
            decreases ufuel_sum(self.children@, p, m as int),
        {
            proof {
                assert forall|k: int| 0 <= k < m implies candidate.start <= (#[trigger] self.children@[k]).floor(p).start by {
                    assert(self.slots@[k] is Some);
                }
            }
            match slots_minimum(&self.slots) {
                Some((mi, iv)) => {
                    if iv == candidate {
                        proof {
                            assert(self.witness_at(p, candidate, mi as int));
                        }
                        break;
                    }
                },
                None => {},
            }
            let ghost before = *self;
            self.advance_min(p, Ghost(n));
            proof {
                self.lemma_child_depths();
                assert forall|k: int| 0 <= k < m implies le2((#[trigger] o.children@[k]).floor(p), self.children@[k].floor(p)) by {
                    assert(le2(o.children@[k].floor(p), before.children@[k].floor(p)));
                    assert(le2(before.children@[k].floor(p), self.children@[k].floor(p)));
                }
                assert(le2(before.children@[cw].floor(p), self.children@[cw].floor(p)));
                assert forall|k: int| 0 <= k < m implies candidate.start <= (#[trigger] self.children@[k]).floor(p).start by {
                    assert(le2(before.children@[k].floor(p), self.children@[k].floor(p)));
                }
            }
            if !slots_full(&self.slots) {
                proof {
                    let j = choose|k: int| 0 <= k < self.slots@.len() && (#[trigger] self.slots@[k]) is None;
                    assert(self.children@[j].finished(p));
                    assert(self.finished(p));
                }
                break;
            }
            let new_span = span_of_slots(&self.slots);
            if !candidate.contains(new_span) {
                proof {
                    let j = choose|k: int| 0 <= k < self.slots@.len() && (#[trigger] self.slots@[k])->0.interval.end == new_span.end;
                    let s0 = choose|k: int| 0 <= k < self.slots@.len() && (#[trigger] self.slots@[k])->0.interval.start == new_span.start;
                    assert(self.slots@[s0] is Some);
                    assert(candidate.start <= self.children@[s0].floor(p).start);
                    assert(self.slots@[j] is Some);
                    assert(self.witness_at(p, candidate, j));
                }
                break;
            }
            proof {
                self.lemma_span_above_prev(p, n, new_span);
                cw = choose|k: int| 0 <= k < self.slots@.len() && (#[trigger] self.slots@[k])->0.interval.end == new_span.end;
                assert(self.slots@[cw] is Some);
            }
            proof {
                if strict_positions(p, n) && o.prev is Some {
                    let pv = o.prev->0;
                    if spec_contains(new_span, pv) {
                        assert(spec_contains(candidate, pv));
                    }
                    self.lemma_span_end_above(p, n, new_span, pv);
                }
            }
            candidate = new_span;
            candidate_gaps = gaps_of_slots(&self.slots, candidate);
            proof {
                cand_slots = self.slots@;
            }
        }
        let ghost looped = *self;
        self.prev = Some(candidate);
        self.last_gaps = candidate_gaps;
        proof {
            self.window = Ghost(cand_slots);
        }
        proof {
            assert(self.pending() <= 1);
            if self.pending() == 1 {
                assert(all_present(looped.slots@) && !spec_contains(slots_span(looped.slots@), candidate));
            }
            assert forall|k: int| 0 <= k < m && (#[trigger] self.slots@[k]) is Some implies ok_iv(self.slots@[k]->0.interval)
                && self.slots@[k]->0.interval == self.children@[k].floor(p) by {
                assert(looped.slots@[k] is Some);
            }
            assert forall|k: int| 0 <= k < m && (#[trigger] self.slots@[k]) is Some implies self.children@[k].started(p) by {
                assert(looped.slots@[k] is Some);
            }
            if strict_positions(p, n) {
                if looped.finished(p) {
                    let j = choose|k: int| 0 <= k < looped.children@.len() && looped.slots@[k] is None
                        && (#[trigger] looped.children@[k]).finished(p);
                    assert(self.slots@[j] is None);
                    assert(self.children@ == looped.children@);
                    assert(self.children@[j].finished(p));
                    assert(self.finished(p));
                } else {
                    let k = choose|k: int| 0 <= k < m && #[trigger] looped.witness_at(p, candidate, k);
                    assert(self.witness_at(p, candidate, k));
                }
                assert(self.later_spans_end_after(p, candidate));
            }
        }
        Some(candidate)
    }

    fn gaps(&self) -> (r: Option<u64>)
        ensures
            r == self.spec_gaps(),
    {
        self.last_gaps
    }

    fn reset<P: TermPositions>(&mut self, p: &P, Ghost(n): Ghost<nat>)
        requires
            old(self).shape(n),
        ensures
            final(self).wf(p, n),
            final(self).shape(n),
            final(self).depth() == old(self).depth(),
            final(self).floor(p) == origin(),
        decreases old(self).depth(), 0nat,
    {
        proof { self.lemma_child_depths(); }
        let m = self.children.len();
        let ghost d = self.depth();
        let mut i: usize = 0;
        while i < m
            invariant
                m == self.children@.len(),
                m >= 1,
                i <= m,
                self.slots@.len() == m,
                forall|k: int| 0 <= k < i ==> (#[trigger] self.slots@[k]) is None,
                forall|k: int| 0 <= k < m ==> (#[trigger] self.children@[k]).depth() < d,
                forall|k: int| 0 <= k < m ==> (#[trigger] self.children@[k]).shape(n),
                forall|k: int| 0 <= k < i ==> (#[trigger] self.children@[k]).wf(p, n),
                umax_depth(self.children@, m as int) + 1 == d,
                d == old(self).depth(),
            decreases m - i,
        {
            let ghost ch0 = self.children@;
            self.children[i].reset(p, Ghost(n));
            self.slots.set(i, None);
            proof {
                lemma_umax_depth_same(ch0, self.children@, m as int);
            }
            i += 1;
        }
        self.prev = None;
        self.last_gaps = None;
    }
}

// ---------------------------------------------------------------- compiling

/// Every tree of `s` is valid over `n` terms, read element by element.
pub proof fn lemma_all_valid_index(s: Seq<SpanTree>, n: usize)
    requires
        all_valid(s, n),
    ensures
        forall|i: int| 0 <= i < s.len() ==> query_valid(#[trigger] s[i], n),
    decreases s.len(),
{
    if s.len() > 0 {
        lemma_all_valid_index(s.drop_last(), n);
        assert forall|i: int| 0 <= i < s.len() implies query_valid(#[trigger] s[i], n) by {
            if i < s.len() - 1 {
                assert(s[i] == s.drop_last()[i]);
            }
        }
    }
}

/// Whether `t` is a `Term` leaf.
pub open spec fn is_term(t: SpanTree) -> bool {
    t is Term
}

/// The index of a `Term` leaf.
pub open spec fn term_of(t: SpanTree) -> usize {
    match t {
        SpanTree::Term(i) => i,
        _ => 0,
    }
}

/// The term indices of an exact term-only phrase: a gap-free ordered node
/// over at least two `Term` leaves.
pub open spec fn exact_phrase_terms(t: SpanTree) -> Option<Seq<usize>> {
    match t {
        SpanTree::MaxGaps { max_gaps, inner } => match *inner {
            SpanTree::Ordered(ch) => if max_gaps == 0 && ch.len() >= 2 && forall|k: int| 0 <= k < ch.len() ==> is_term(#[trigger] ch[k]) {
                Some(ch.map_values(|c: SpanTree| term_of(c)))
            } else {
                None
            },
            _ => None,
        },
        _ => None,
    }
}

/// The term indices of `query` when it is an exact term-only phrase.
pub fn exact_phrase_term_indices(query: &SpanQuery) -> (r: Option<Vec<usize>>)
    ensures
        r matches Some(v) ==> exact_phrase_terms(query@) == Some(v@),
        r is None ==> exact_phrase_terms(query@) is None,
{
    let (max_gaps, inner) = match query {
        SpanQuery::MaxGaps { max_gaps, inner } => (*max_gaps, inner),
        _ => {
            proof {
                assert(!(query@ is MaxGaps));
            }
            return None;
        },
    };
    proof {
        assert(query@ == SpanTree::MaxGaps { max_gaps, inner: Box::new(tree_of(**inner)) });
    }
    if max_gaps != 0 {
        return None;
    }
    let children = match &**inner {
        SpanQuery::Ordered(children) => children,
        _ => {
            proof {
                assert(!(tree_of(**inner) is Ordered));
            }
            return None;
        },
    };
    proof {
        lemma_trees_of_index(children@);
        assert(tree_of(**inner) == SpanTree::Ordered(trees_of(children@)));
    }
    if children.len() < 2 {
        return None;
    }
    let ghost ts = trees_of(children@);
    let mut term_indices: Vec<usize> = Vec::new();
    let mut i: usize = 0;
    while i < children.len()
        invariant
            i <= children@.len(),
            ts == trees_of(children@),
            ts.len() == children@.len(),
            forall|k: int| 0 <= k < children@.len() ==> #[trigger] ts[k] == tree_of(children@[k]),
            term_indices@.len() == i,
            forall|k: int| 0 <= k < i ==> is_term(#[trigger] ts[k]) && term_indices@[k] == term_of(ts[k]),
            query@ == (SpanTree::MaxGaps { max_gaps: 0, inner: Box::new(SpanTree::Ordered(ts)) }),
            children@.len() >= 2,
        decreases children@.len() - i,
    {
        match &children[i] {
            SpanQuery::Term(idx) => {
                term_indices.push(*idx);
            },
            _ => {
                proof {
                    assert(!is_term(ts[i as int]));
                }
                return None;
            },
        }
        i += 1;
    }
    proof {
        assert(term_indices@ =~= ts.map_values(|c: SpanTree| term_of(c)));
    }
    Some(term_indices)
}

/// How many trees of `ts` before index `k` equal `t`.
pub open spec fn count_of(ts: Seq<SpanTree>, t: SpanTree, k: int) -> nat
    decreases k,
{
    if k <= 0 {
        0
    } else {
        count_of(ts, t, k - 1) + if ts[k - 1] == t { 1nat } else { 0nat }
    }
}

/// A tree that occurs nowhere before `k` is counted zero times.
proof fn lemma_count_absent(ts: Seq<SpanTree>, t: SpanTree, k: int)
    requires
        forall|j: int| 0 <= j < k ==> ts[j] != t,
    ensures
        count_of(ts, t, k) == 0,
    decreases k,
{
    if k > 0 {
        lemma_count_absent(ts, t, k - 1);
    }
}

impl UnorderedChild {
    /// How many operands of the query this operand stands for.
    pub closed spec fn copies(&self) -> nat {
        match self {
            UnorderedChild::Single(_) => 1,
            UnorderedChild::Repeated(r) => r.copies as nat,
        }
    }
}

impl NodeState {
    /// The node evaluates the query tree `t`: same operator, same
    /// parameters, and children that evaluate `t`'s children. An exact
    /// phrase is evaluated by a phrase node; an unordered node holds one
    /// operand for each distinct child tree, standing for as many copies of
    /// it as the query has.
    pub closed spec fn models(&self, t: SpanTree) -> bool
        decreases self, 0nat,
    {
        match self {
            NodeState::Empty => t == SpanTree::Empty,
            NodeState::Term(s) => t == SpanTree::Term(s.term_index),
            NodeState::Phrase(s) => exact_phrase_terms(t) == Some(s.term_indices@),
            NodeState::Filter(f) => match (f.kind, t) {
                (FilterKind::MaxGaps { max_gaps: a }, SpanTree::MaxGaps { max_gaps: b, inner }) =>
                    a == b && f.inner.models(*inner),
                (FilterKind::GapsInRange { min_gaps: a, max_gaps: b }, SpanTree::GapsInRange { min_gaps: c, max_gaps: d, inner }) =>
                    a == c && b == d && f.inner.models(*inner),
                (FilterKind::MaxWidth { max_width: a }, SpanTree::MaxWidth { max_width: b, inner }) =>
                    a == b && f.inner.models(*inner),
                (FilterKind::WithinPositions { lo: a, hi: b }, SpanTree::WithinPositions { inner, lo: c, hi: d }) =>
                    a == c && b == d && f.inner.models(*inner),
                _ => false,
            },
            NodeState::Relation(r) => match (r.kind, t) {
                (RelationKind::Containing, SpanTree::Containing { big, little }) => r.a.models(*big) && r.b.models(*little),
                (RelationKind::ContainedBy, SpanTree::ContainedBy { little, big }) => r.a.models(*little) && r.b.models(*big),
                (RelationKind::NotContaining, SpanTree::NotContaining { big, little }) => r.a.models(*big) && r.b.models(*little),
                (RelationKind::NotContainedBy, SpanTree::NotContainedBy { little, big }) => r.a.models(*little) && r.b.models(*big),
                (RelationKind::Overlapping, SpanTree::Overlapping { a, b }) => r.a.models(*a) && r.b.models(*b),
                (RelationKind::NonOverlapping, SpanTree::NonOverlapping { a, b }) => r.a.models(*a) && r.b.models(*b),
                (RelationKind::Before, SpanTree::Before { a, b }) => r.a.models(*a) && r.b.models(*b),
                (RelationKind::After, SpanTree::After { a, b }) => r.a.models(*a) && r.b.models(*b),
                _ => false,
            },
            NodeState::Or(o) => match t {
                SpanTree::Or(ch) => ch.len() == o.children@.len()
                    && forall|k: int| 0 <= k < ch.len() ==> (#[trigger] o.children@[k]).models(ch[k]),
                _ => false,
            },
            NodeState::Ordered(o) => match t {
                SpanTree::Ordered(ch) => ch.len() == o.children@.len()
                    && forall|k: int| 0 <= k < ch.len() ==> (#[trigger] o.children@[k]).models(ch[k]),
                _ => false,
            },
            NodeState::Unordered(u) => match t {
                SpanTree::Unordered(ch) => {
                    let ops = u.children@;
                    let firsts = u.firsts@;
                    let owners = u.owners@;
                    &&& firsts.len() == ops.len() && owners.len() == ch.len()
                    &&& forall|k: int| 0 <= k < ops.len() ==> 0 <= #[trigger] firsts[k] < ch.len()
                        && operand_models(ops[k], ch[firsts[k]])
                        && ops[k].copies() == count_of(ch, ch[firsts[k]], ch.len() as int)
                    &&& forall|j: int| 0 <= j < ch.len() ==> 0 <= #[trigger] owners[j] < ops.len()
                        && ch[j] == ch[firsts[owners[j]]]
                },
                _ => false,
            },
        }
    }
}

/// The operand evaluates the tree `t`, copies aside.
pub closed spec fn operand_models(op: UnorderedChild, t: SpanTree) -> bool
    decreases op,
{
    match op {
        UnorderedChild::Single(s) => s.models(t),
        UnorderedChild::Repeated(r) => r.child.models(t),
    }
}

/// Unordered node built from operand states, every slot empty.
fn unordered_from(
    children: Vec<UnorderedChild>,
    Ghost(n): Ghost<nat>,
    Ghost(firsts): Ghost<Seq<int>>,
    Ghost(owners): Ghost<Seq<int>>,
) -> (r: UnorderedState)
    requires
        children@.len() >= 1,
        forall|k: int| 0 <= k < children@.len() ==> (#[trigger] children@[k]).shape(n),
    ensures
        r.shape(n),
        r.children == children,
        r.firsts@ == firsts,
        r.owners@ == owners,
{
    let m = children.len();
    let mut slots: Vec<Option<OperandInterval>> = Vec::new();
    let mut i: usize = 0;
    while i < m
        invariant
            i <= m,
            slots@.len() == i,
        decreases m - i,
    {
        slots.push(None);
        i += 1;
    }
    UnorderedState { children, slots, prev: None, last_gaps: None, firsts: Ghost(firsts), owners: Ghost(owners),
        window: Ghost(Seq::empty()) }
}

/// Some group of `groups` holds a tree equal to `ts[j]`.
pub open spec fn group_covers(groups: Seq<(usize, usize)>, ts: Seq<SpanTree>, j: int) -> bool {
    exists|g: int| #![trigger groups[g]] 0 <= g < groups.len() && ts[groups[g].0 as int] == ts[j]
}

/// The groups of equal trees among `queries`: for each, the index of its
/// first occurrence and how many times it occurs, in order of first
/// occurrence.
#[verifier::rlimit(60)]
#[verifier::spinoff_prover]
fn group_equal(queries: &Vec<SpanQuery>) -> (groups: Vec<(usize, usize)>)
    requires
        queries@.len() >= 1,
    ensures
        groups@.len() >= 1,
        forall|g: int| 0 <= g < groups@.len() ==> (#[trigger] groups@[g]).0 < queries@.len() && 1 <= groups@[g].1,
        forall|g: int| 0 <= g < groups@.len() ==> (#[trigger] groups@[g]).1
            == count_of(trees_of(queries@), trees_of(queries@)[groups@[g].0 as int], queries@.len() as int),
        forall|j: int| 0 <= j < queries@.len() ==> #[trigger] group_covers(groups@, trees_of(queries@), j),
{
    proof {
        lemma_trees_of_index(queries@);
    }
    let ghost ts = trees_of(queries@);
    let len = queries.len();
    let mut groups: Vec<(usize, usize)> = Vec::new();
    let mut i: usize = 0;
    while i < len
        invariant
            len == queries@.len(),
            ts == trees_of(queries@),
            ts.len() == len,
            forall|k: int| 0 <= k < len ==> #[trigger] ts[k] == tree_of(queries@[k]),
            i <= len,
            i >= 1 ==> groups@.len() >= 1,
            forall|g: int| 0 <= g < groups@.len() ==> (#[trigger] groups@[g]).0 < i && 1 <= groups@[g].1 <= i,
            forall|g: int| 0 <= g < groups@.len() ==> (#[trigger] groups@[g]).1 == count_of(ts, ts[groups@[g].0 as int], i as int),
            forall|g: int, h: int| 0 <= g < groups@.len() && 0 <= h < groups@.len() && g != h
                ==> ts[(#[trigger] groups@[g]).0 as int] != ts[(#[trigger] groups@[h]).0 as int],
            forall|j: int| 0 <= j < i ==> #[trigger] group_covers(groups@, ts, j),
        decreases len - i,
    {
        let mut g: usize = 0;
        let mut found = false;
        while g < groups.len() && !found
            invariant
                len == queries@.len(),
                ts == trees_of(queries@),
                ts.len() == len,
                forall|k: int| 0 <= k < len ==> #[trigger] ts[k] == tree_of(queries@[k]),
                i < len,
                g <= groups@.len(),
                forall|h: int| 0 <= h < groups@.len() ==> (#[trigger] groups@[h]).0 < i && 1 <= groups@[h].1 <= i,
                found ==> g < groups@.len() && ts[groups@[g as int].0 as int] == ts[i as int],
                !found ==> forall|h: int| 0 <= h < g ==> ts[(#[trigger] groups@[h]).0 as int] != ts[i as int],
            decreases groups@.len() - g + if found { 0int } else { 1int },
        {
            if queries[groups[g].0].same_query(&queries[i]) {
                found = true;
            } else {
                g += 1;
            }
        }
        let ghost old_groups = groups@;
        if found {
            let (first, copies) = groups[g];
            groups.set(g, (first, copies + 1));
            proof {
                assert forall|h: int| 0 <= h < groups@.len() implies (#[trigger] groups@[h]).1 == count_of(ts, ts[groups@[h].0 as int], i + 1) by {
                    assert(count_of(ts, ts[groups@[h].0 as int], i + 1) == count_of(ts, ts[groups@[h].0 as int], i as int)
                        + if ts[i as int] == ts[groups@[h].0 as int] { 1nat } else { 0nat });
                    if h != g {
                        assert(old_groups[h] == groups@[h]);
                        assert(ts[old_groups[h].0 as int] != ts[old_groups[g as int].0 as int]);
                    }
                }
                assert forall|j: int| 0 <= j < i + 1 implies #[trigger] group_covers(groups@, ts, j) by {
                    if j == i {
                        assert(ts[groups@[g as int].0 as int] == ts[j]);
                    } else {
                        assert(group_covers(old_groups, ts, j));
                        let h = choose|h: int| #![trigger old_groups[h]] 0 <= h < old_groups.len() && ts[old_groups[h].0 as int] == ts[j];
                        assert(groups@[h].0 == old_groups[h].0);
                    }
                }
                assert forall|x: int, y: int| 0 <= x < groups@.len() && 0 <= y < groups@.len() && x != y
                    implies ts[(#[trigger] groups@[x]).0 as int] != ts[(#[trigger] groups@[y]).0 as int] by {
                    assert(groups@[x].0 == old_groups[x].0 && groups@[y].0 == old_groups[y].0);
                }
            }
        } else {
            proof {
                assert forall|j: int| 0 <= j < i implies ts[j] != ts[i as int] by {
                    assert(group_covers(old_groups, ts, j));
                        let h = choose|h: int| #![trigger old_groups[h]] 0 <= h < old_groups.len() && ts[old_groups[h].0 as int] == ts[j];
                }
                lemma_count_absent(ts, ts[i as int], i as int);
            }
            groups.push((i, 1));
            proof {
                assert forall|h: int| 0 <= h < groups@.len() implies (#[trigger] groups@[h]).1 == count_of(ts, ts[groups@[h].0 as int], i + 1) by {
                    assert(count_of(ts, ts[groups@[h].0 as int], i + 1) == count_of(ts, ts[groups@[h].0 as int], i as int)
                        + if ts[i as int] == ts[groups@[h].0 as int] { 1nat } else { 0nat });
                    if h < old_groups.len() {
                        assert(old_groups[h] == groups@[h]);
                    }
                }
                assert forall|j: int| 0 <= j < i + 1 implies #[trigger] group_covers(groups@, ts, j) by {
                    if j == i {
                        assert(ts[groups@[old_groups.len() as int].0 as int] == ts[j]);
                    } else {
                        assert(group_covers(old_groups, ts, j));
                        let h = choose|h: int| #![trigger old_groups[h]] 0 <= h < old_groups.len() && ts[old_groups[h].0 as int] == ts[j];
                        assert(groups@[h] == old_groups[h]);
                    }
                }
                assert forall|x: int, y: int| 0 <= x < groups@.len() && 0 <= y < groups@.len() && x != y
                    implies ts[(#[trigger] groups@[x]).0 as int] != ts[(#[trigger] groups@[y]).0 as int] by {
                    if x < old_groups.len() {
                        assert(groups@[x] == old_groups[x]);
                    }
                    if y < old_groups.len() {
                        assert(groups@[y] == old_groups[y]);
                    }
                }
            }
        }
        i += 1;
    }
    proof {
        assert(i == len);
        assert forall|j: int| 0 <= j < queries@.len() implies #[trigger] group_covers(groups@, trees_of(queries@), j) by {
            assert(group_covers(groups@, ts, j));
        }
    }
    groups
}

/// Unordered node over `queries`: operands that are the same tree form one
/// group, read through sliding windows as wide as the group.
#[verifier::rlimit(60)]
#[verifier::spinoff_prover]
fn compile_unordered(queries: &Vec<SpanQuery>, Ghost(n): Ghost<usize>) -> (r: UnorderedState)
    requires
        queries@.len() >= 1,
        all_valid(trees_of(queries@), n),
    ensures
        r.shape(n as nat),
        NodeState::Unordered(r).models(SpanTree::Unordered(trees_of(queries@))),
    decreases queries@,
{
    proof {
        lemma_trees_of_index(queries@);
        lemma_all_valid_index(trees_of(queries@), n);
    }
    let ghost ts = trees_of(queries@);
    let len = queries.len();
    let groups = group_equal(queries);
    let mut children: Vec<UnorderedChild> = Vec::new();
    let mut g: usize = 0;
    while g < groups.len()
        invariant
            len == queries@.len(),
            ts == trees_of(queries@),
            ts.len() == len,
            g <= groups@.len(),
            groups@.len() >= 1,
            forall|h: int| 0 <= h < groups@.len() ==> (#[trigger] groups@[h]).0 < len && 1 <= groups@[h].1,
            forall|k: int| 0 <= k < len ==> query_valid(#[trigger] trees_of(queries@)[k], n),
            forall|k: int| 0 <= k < len ==> #[trigger] trees_of(queries@)[k] == tree_of(queries@[k]),
            children@.len() == g,
            forall|k: int| 0 <= k < g ==> (#[trigger] children@[k]).shape(n as nat),
            forall|k: int| 0 <= k < g ==> operand_models(#[trigger] children@[k], ts[groups@[k].0 as int])
                && children@[k].copies() == groups@[k].1,
        decreases groups@.len() - g,
    {
        let (first, copies) = groups[g];
        proof {
            assert(query_valid(trees_of(queries@)[first as int], n));
        }
        let state = NodeState::compile(&queries[first], Ghost(n));
        let op = UnorderedChild::new(state, copies);
        proof {
            assert(operand_models(op, ts[first as int]));
        }
        children.push(op);
        g += 1;
    }
    let ghost gs = groups@;
    let ghost firsts = Seq::new(gs.len(), |g: int| gs[g].0 as int);
    let ghost owners = Seq::new(ts.len(), |j: int| choose|g: int| #![trigger gs[g]] 0 <= g < gs.len() && ts[gs[g].0 as int] == ts[j]);
    let r = unordered_from(children, Ghost(n as nat), Ghost(firsts), Ghost(owners));
    proof {
        lemma_unordered_models(r, ts, groups@);
    }
    r
}

/// An unordered node with one operand per group of equal trees, each
/// evaluating its group's tree and standing for its count, evaluates the
/// unordered query over `ts`.
proof fn lemma_unordered_models(u: UnorderedState, ts: Seq<SpanTree>, groups: Seq<(usize, usize)>)
    requires
        u.children@.len() == groups.len(),
        forall|k: int| 0 <= k < groups.len() ==> (#[trigger] groups[k]).0 < ts.len()
            && groups[k].1 == count_of(ts, ts[groups[k].0 as int], ts.len() as int),
        forall|k: int| 0 <= k < groups.len() ==> operand_models(#[trigger] u.children@[k], ts[groups[k].0 as int])
            && u.children@[k].copies() == groups[k].1,
        forall|j: int| 0 <= j < ts.len() ==> #[trigger] group_covers(groups, ts, j),
        u.firsts@ == Seq::new(groups.len(), |g: int| groups[g].0 as int),
        u.owners@ == Seq::new(ts.len(), |j: int| choose|g: int| #![trigger groups[g]] 0 <= g < groups.len() && ts[groups[g].0 as int] == ts[j]),
    ensures
        NodeState::Unordered(u).models(SpanTree::Unordered(ts)),
{
    assert forall|j: int| 0 <= j < ts.len() implies 0 <= #[trigger] u.owners@[j] < u.children@.len()
        && ts[j] == ts[u.firsts@[u.owners@[j]]] by {
        assert(group_covers(groups, ts, j));
    }
}

/// States for a list of queries, in order.
fn compile_children(queries: &Vec<SpanQuery>, Ghost(n): Ghost<usize>) -> (r: Vec<NodeState>)
    requires
        all_valid(trees_of(queries@), n),
    ensures
        r@.len() == queries@.len(),
        forall|k: int| 0 <= k < r@.len() ==> (#[trigger] r@[k]).shape(n as nat),
        forall|k: int| 0 <= k < r@.len() ==> (#[trigger] r@[k]).models(trees_of(queries@)[k]),
    decreases queries@,
{
    proof {
        lemma_trees_of_index(queries@);
        lemma_all_valid_index(trees_of(queries@), n);
    }
    let mut out: Vec<NodeState> = Vec::new();
    let mut i: usize = 0;
    while i < queries.len()
        invariant
            i <= queries@.len(),
            forall|k: int| 0 <= k < queries@.len() ==> query_valid(#[trigger] trees_of(queries@)[k], n),
            forall|k: int| 0 <= k < queries@.len() ==> #[trigger] trees_of(queries@)[k] == tree_of(queries@[k]),
            out@.len() == i,
            forall|k: int| 0 <= k < i ==> (#[trigger] out@[k]).shape(n as nat),
            forall|k: int| 0 <= k < i ==> (#[trigger] out@[k]).models(trees_of(queries@)[k]),
        decreases queries@.len() - i,
    {
        proof {
            assert(query_valid(trees_of(queries@)[i as int], n));
        }
        out.push(NodeState::compile(&queries[i], Ghost(n)));
        i += 1;
    }
    out
}

/// A vector of `m` empty slots.
fn empty_slots(m: usize) -> (r: Vec<Option<Interval>>)
    ensures
        r@.len() == m,
        forall|k: int| 0 <= k < m ==> (#[trigger] r@[k]) is None,
{
    let mut v: Vec<Option<Interval>> = Vec::new();
    let mut i: usize = 0;
    while i < m
        invariant
            i <= m,
            v@.len() == i,
            forall|k: int| 0 <= k < i ==> (#[trigger] v@[k]) is None,
        decreases m - i,
    {
        v.push(None);
        i += 1;
    }
    v
}

// ---------------------------------------------------------------- dispatch

/// Internal state machine for one node of the operator tree.
pub enum NodeState {
    Empty,
    Term(TermState),
    Phrase(PhraseState),
    Filter(FilterState),
    Relation(RelationState),
    Or(OrState),
    Ordered(OrderedState),
    Unordered(UnorderedState),
}

impl NodeState {
    /// The state's internal invariant over `n` available position lists.
    pub closed spec fn wf<P: TermPositions>(&self, p: &P, n: nat) -> bool
        decreases self,
    {
        match self {
            NodeState::Empty => true,
            NodeState::Term(t) => t.wf(p, n),
            NodeState::Phrase(t) => t.wf(p, n),
            NodeState::Filter(f) => f.wf(p, n),
            NodeState::Relation(r) => r.wf(p, n),
            NodeState::Or(o) => o.wf(p, n),
            NodeState::Ordered(o) => o.wf(p, n),
            NodeState::Unordered(u) => u.wf(p, n),
        }
    }

    /// The part of the invariant that does not depend on the document.
    pub closed spec fn shape(&self, n: nat) -> bool
        decreases self,
    {
        match self {
            NodeState::Empty => true,
            NodeState::Term(t) => t.shape(n),
            NodeState::Phrase(t) => t.shape(n),
            NodeState::Filter(f) => f.shape(n),
            NodeState::Relation(r) => r.shape(n),
            NodeState::Or(o) => o.shape(n),
            NodeState::Ordered(o) => o.shape(n),
            NodeState::Unordered(u) => u.shape(n),
        }
    }

    /// The invariant includes the document-independent part.
    pub proof fn lemma_wf_shape<P: TermPositions>(&self, p: &P, n: nat)
        requires
            self.wf(p, n),
        ensures
            self.shape(n),
        decreases self,
    {
        match self {
            NodeState::Empty => {},
            NodeState::Term(_) => {},
            NodeState::Phrase(_) => {},
            NodeState::Filter(f) => f.lemma_wf_shape(p, n),
            NodeState::Relation(r) => r.lemma_wf_shape(p, n),
            NodeState::Or(o) => o.lemma_wf_shape(p, n),
            NodeState::Ordered(o) => o.lemma_wf_shape(p, n),
            NodeState::Unordered(u) => u.lemma_wf_shape(p, n),
        }
    }

    /// An upper bound on how many more intervals the state can produce;
    /// it never grows and shrinks with every interval produced.
    pub closed spec fn fuel<P: TermPositions>(&self, p: &P) -> nat
        decreases self, 0nat,
    {
        match self {
            NodeState::Empty => 0,
            NodeState::Term(t) => t.fuel(p),
            NodeState::Phrase(t) => t.fuel(p),
            NodeState::Filter(f) => f.fuel(p),
            NodeState::Relation(r) => r.fuel(p),
            NodeState::Or(o) => o.fuel(p),
            NodeState::Ordered(o) => o.fuel(p),
            NodeState::Unordered(u) => u.fuel(p),
        }
    }

    /// The most recently produced interval (the origin before the first):
    /// every later interval is no earlier in either coordinate.
    pub closed spec fn floor<P: TermPositions>(&self, p: &P) -> Interval
        decreases self,
    {
        match self {
            NodeState::Empty => origin(),
            NodeState::Term(t) => t.floor(p),
            NodeState::Phrase(t) => t.floor(p),
            NodeState::Filter(f) => f.floor(p),
            NodeState::Relation(r) => r.floor(p),
            NodeState::Or(o) => o.floor(p),
            NodeState::Ordered(o) => o.floor(p),
            NodeState::Unordered(u) => u.floor(p),
        }
    }

    /// The node has produced an interval since the last reset.
    pub closed spec fn started<P: TermPositions>(&self, p: &P) -> bool
        decreases self,
    {
        match self {
            NodeState::Empty => false,
            NodeState::Term(t) => t.started(p),
            NodeState::Phrase(t) => t.started(p),
            NodeState::Filter(f) => f.started(p),
            NodeState::Relation(r) => r.started(p),
            NodeState::Or(o) => o.started(p),
            NodeState::Ordered(o) => o.started(p),
            NodeState::Unordered(u) => u.started(p),
        }
    }

    /// The node will produce no further interval.
    pub closed spec fn finished<P: TermPositions>(&self, p: &P) -> bool
        decreases self,
    {
        match self {
            NodeState::Empty => true,
            NodeState::Term(t) => t.finished(p),
            NodeState::Phrase(t) => t.finished(p),
            NodeState::Filter(f) => f.finished(p),
            NodeState::Relation(r) => r.finished(p),
            NodeState::Or(o) => o.finished(p),
            NodeState::Ordered(o) => o.finished(p),
            NodeState::Unordered(u) => u.finished(p),
        }
    }

    /// Nesting depth of the state tree; producing intervals never changes it.
    pub closed spec fn depth(&self) -> nat
        decreases self, 0nat,
    {
        match self {
            NodeState::Empty => 1,
            NodeState::Term(_) => 1,
            NodeState::Phrase(_) => 1,
            NodeState::Filter(f) => f.depth() + 1,
            NodeState::Relation(r) => r.depth() + 1,
            NodeState::Or(o) => o.depth() + 1,
            NodeState::Ordered(o) => o.depth() + 1,
            NodeState::Unordered(u) => u.depth() + 1,
        }
    }

    /// The gap count reported for the most recent interval.
    pub closed spec fn spec_gaps(&self) -> Option<u64>
        decreases self,
    {
        match self {
            NodeState::Empty => None,
            NodeState::Term(_) => Some(0),
            NodeState::Phrase(_) => Some(0),
            NodeState::Filter(f) => f.spec_gaps(),
            NodeState::Relation(r) => r.spec_gaps(),
            NodeState::Or(o) => o.spec_gaps(),
            NodeState::Ordered(o) => o.spec_gaps(),
            NodeState::Unordered(u) => u.spec_gaps(),
        }
    }

    /// The term a single-term node reads.
    pub closed spec fn term_leaf(&self) -> Option<usize> {
        match self {
            NodeState::Term(t) => Some(t.term_index),
            _ => None,
        }
    }

    /// How many positions a single-term node has produced since the last reset.
    pub closed spec fn term_read(&self) -> nat {
        match self {
            NodeState::Term(t) => t.cursor as nat,
            _ => 0,
        }
    }

    /// The terms of an exact-phrase node.
    pub closed spec fn phrase_leaf(&self) -> Option<Seq<usize>> {
        match self {
            NodeState::Phrase(t) => Some(t.term_indices@),
            _ => None,
        }
    }

    /// For an exact-phrase node: `s` starts an occurrence of the phrase
    /// that the node has yet to produce.
    pub closed spec fn phrase_owed<P: TermPositions>(&self, p: &P, s: u32) -> bool {
        match self {
            NodeState::Phrase(t) => t.owed(p, s),
            _ => false,
        }
    }

    /// What the node's own operator guarantees of an interval it produced,
    /// given the state before and after producing it.
    pub closed spec fn produced<P: TermPositions>(before: NodeState, after: NodeState, p: &P, iv: Interval) -> bool {
        match (before, after) {
            (NodeState::Term(t), _) => t.upcoming(p) == Some(iv),
            (NodeState::Phrase(t), _) => phrase_at(p, t.terms(), iv.start) && iv.end == iv.start + t.terms().len() - 1,
            (NodeState::Filter(f), NodeState::Filter(g)) => filter_accepts(f.spec_kind(), iv, g.spec_gaps()),
            (NodeState::Relation(r), NodeState::Relation(q)) => relation_holds(r.spec_kind(), iv, q.spec_b_current()),
            (NodeState::Ordered(_), NodeState::Ordered(q)) => q.produced_chain(p, iv),
            (NodeState::Unordered(u), _) => u.spec_prev() matches Some(pv) ==> !spec_contains(iv, pv),
            _ => true,
        }
    }

    /// Compile a query tree, valid over `n` terms, into its evaluation state.
    pub fn compile(query: &SpanQuery, Ghost(n): Ghost<usize>) -> (r: NodeState)
        requires
            query_valid(query@, n),
        ensures
            r.shape(n as nat),
            r.models(query@),
            query@ matches SpanTree::Term(i) ==> r.term_leaf() == Some(i),
            exact_phrase_terms(query@) matches Some(ts) ==> (ts.len() - 1 <= u32::MAX ==> r.phrase_leaf() == Some(ts)),
        decreases *query,
    {
        match exact_phrase_term_indices(query) {
            Some(term_indices) => {
                proof {
                    match query@ {
                        SpanTree::MaxGaps { inner, .. } => match *inner {
                            SpanTree::Ordered(ch) => {
                                assert(query_valid(*inner, n));
                                lemma_all_valid_index(ch, n);
                                assert forall|k: int| 0 <= k < term_indices@.len() implies #[trigger] term_indices@[k] < n by {
                                    assert(query_valid(ch[k], n));
                                }
                            },
                            _ => {},
                        },
                        _ => {},
                    }
                }
                if term_indices.len() - 1 <= u32::MAX as usize {
                    return NodeState::Phrase(PhraseState::new(term_indices));
                }
            },
            None => {},
        }
        match query {
            SpanQuery::Empty => NodeState::Empty,
            SpanQuery::Term(i) => NodeState::Term(TermState::new(*i)),
            SpanQuery::Ordered(children) => {
                proof {
                    lemma_trees_of_index(children@);
                }
                let states = compile_children(children, Ghost(n));
                let m = states.len();
                NodeState::Ordered(OrderedState {
                    children: states,
                    current: empty_slots(m),
                    lookahead: empty_slots(m),
                    last_gaps: None,
                    floor: Ghost(origin()),
                    last: Ghost(Seq::empty()),
                })
            },
            SpanQuery::Unordered(children) => {
                proof {
                    lemma_trees_of_index(children@);
                }
                NodeState::Unordered(compile_unordered(children, Ghost(n)))
            },
            SpanQuery::Or(children) => {
                proof {
                    lemma_trees_of_index(children@);
                }
                let states = compile_children(children, Ghost(n));
                let m = states.len();
                NodeState::Or(OrState { children: states, current: empty_slots(m), prev: None, last_gaps: None,
                    returned: Ghost(Seq::empty()), reported: Ghost(Seq::empty()), emitted: Ghost(Seq::empty()) })
            },
            SpanQuery::MaxGaps { max_gaps, inner } => NodeState::Filter(
                FilterState::new(NodeState::compile(inner, Ghost(n)), FilterKind::MaxGaps { max_gaps: *max_gaps }),
            ),
            SpanQuery::GapsInRange { min_gaps, max_gaps, inner } => NodeState::Filter(
                FilterState::new(
                    NodeState::compile(inner, Ghost(n)),
                    FilterKind::GapsInRange { min_gaps: *min_gaps, max_gaps: *max_gaps },
                ),
            ),
            SpanQuery::MaxWidth { max_width, inner } => NodeState::Filter(
                FilterState::new(NodeState::compile(inner, Ghost(n)), FilterKind::MaxWidth { max_width: *max_width }),
            ),
            SpanQuery::WithinPositions { inner, lo, hi } => NodeState::Filter(
                FilterState::new(NodeState::compile(inner, Ghost(n)), FilterKind::WithinPositions { lo: *lo, hi: *hi }),
            ),
            SpanQuery::Containing { big, little } => NodeState::Relation(RelationState::new(
                RelationKind::Containing, NodeState::compile(big, Ghost(n)), NodeState::compile(little, Ghost(n)))),
            SpanQuery::ContainedBy { little, big } => NodeState::Relation(RelationState::new(
                RelationKind::ContainedBy, NodeState::compile(little, Ghost(n)), NodeState::compile(big, Ghost(n)))),
            SpanQuery::NotContaining { big, little } => NodeState::Relation(RelationState::new(
                RelationKind::NotContaining, NodeState::compile(big, Ghost(n)), NodeState::compile(little, Ghost(n)))),
            SpanQuery::NotContainedBy { little, big } => NodeState::Relation(RelationState::new(
                RelationKind::NotContainedBy, NodeState::compile(little, Ghost(n)), NodeState::compile(big, Ghost(n)))),
            SpanQuery::Overlapping { a, b } => NodeState::Relation(RelationState::new(
                RelationKind::Overlapping, NodeState::compile(a, Ghost(n)), NodeState::compile(b, Ghost(n)))),
            SpanQuery::NonOverlapping { a, b } => NodeState::Relation(RelationState::new(
                RelationKind::NonOverlapping, NodeState::compile(a, Ghost(n)), NodeState::compile(b, Ghost(n)))),
            SpanQuery::Before { a, b } => NodeState::Relation(RelationState::new(
                RelationKind::Before, NodeState::compile(a, Ghost(n)), NodeState::compile(b, Ghost(n)))),
            SpanQuery::After { a, b } => NodeState::Relation(RelationState::new(
                RelationKind::After, NodeState::compile(a, Ghost(n)), NodeState::compile(b, Ghost(n)))),
        }
    }

    /// Restart the node from the beginning of the document.
    pub fn reset<P: TermPositions>(&mut self, p: &P, Ghost(n): Ghost<nat>)
        requires
            old(self).shape(n),
        ensures
            final(self).wf(p, n),
            final(self).shape(n),
            final(self).depth() == old(self).depth(),
            final(self).floor(p) == origin(),
            final(self).term_leaf() == old(self).term_leaf(),
            final(self).phrase_leaf() == old(self).phrase_leaf(),
            final(self).term_read() == 0,
            forall|s: u32| #[trigger] final(self).phrase_owed(p, s)
                == (final(self).phrase_leaf() matches Some(ts) && phrase_at(p, ts, s)),
        decreases old(self).depth(), 1nat,
    {
        match self {
            NodeState::Empty => {},
            NodeState::Term(t) => t.reset(),
            NodeState::Phrase(t) => t.reset(),
            NodeState::Filter(f) => f.reset(p, Ghost(n)),
            NodeState::Relation(r) => r.reset(p, Ghost(n)),
            NodeState::Or(o) => o.reset(p, Ghost(n)),
            NodeState::Ordered(o) => o.reset(p, Ghost(n)),
            NodeState::Unordered(u) => u.reset(p, Ghost(n)),
        }
    }

    /// Gap count for the current interval.
    pub fn gaps(&self) -> (r: Option<u64>)
        ensures
            r == self.spec_gaps(),
        decreases self.depth(), 1nat,
    {
        match self {
            NodeState::Empty => None,
            NodeState::Term(_) => Some(0),
            NodeState::Phrase(_) => Some(0),
            NodeState::Filter(f) => f.gaps(),
            NodeState::Relation(r) => r.gaps(),
            NodeState::Or(o) => o.gaps(),
            NodeState::Ordered(o) => o.gaps(),
            NodeState::Unordered(u) => u.gaps(),
        }
    }

    /// Produce the node's next interval, if any.
    pub fn next_interval<P: TermPositions>(&mut self, p: &P, Ghost(n): Ghost<nat>) -> (r: Option<Interval>)
        requires
            old(self).wf(p, n),
            positions_ok(p, n),
        ensures
            final(self).wf(p, n),
            final(self).depth() == old(self).depth(),
            final(self).fuel(p) <= old(self).fuel(p),
            r is Some ==> final(self).fuel(p) < old(self).fuel(p),
            le2(old(self).floor(p), final(self).floor(p)),
            r matches Some(iv) ==> ok_iv(iv) && le2(old(self).floor(p), iv) && final(self).floor(p) == iv
                && NodeState::produced(*old(self), *final(self), p, iv),
            r is None ==> final(self).finished(p),
            old(self).finished(p) ==> r is None,
            old(self).started(p) ==> final(self).started(p),
            r is Some ==> final(self).started(p),
            starts_after(strict_positions(p, n) && old(self).started(p), old(self).floor(p), r),
            ends_after(strict_positions(p, n) && old(self).started(p), old(self).floor(p), r),
            final(self).term_leaf() == old(self).term_leaf(),
            final(self).phrase_leaf() == old(self).phrase_leaf(),
            old(self).term_leaf() matches Some(i) ==> {
                let l = p.list(i as int);
                let k = old(self).term_read();
                &&& final(self).term_read() <= l.len()
                &&& if k < l.len() {
                    r == Some(Interval { start: l[k as int], end: l[k as int] }) && final(self).term_read() == k + 1
                } else {
                    r is None && final(self).term_read() == k
                }
            },
            forall|s: u32| #[trigger] final(self).phrase_owed(p, s) ==> old(self).phrase_owed(p, s),
            forall|s: u32| #[trigger] old(self).phrase_owed(p, s) ==> final(self).phrase_owed(p, s)
                || (r matches Some(iv) && iv.start == s),
            r is None ==> forall|s: u32| !(#[trigger] final(self).phrase_owed(p, s)),
            old(self).phrase_leaf() matches Some(ts) ==> (r matches Some(iv) ==> phrase_at(p, ts, iv.start)
                && iv.end == iv.start + ts.len() - 1),
        decreases old(self).depth(), 4nat,
    {
        match self {
            NodeState::Empty => None,
            NodeState::Term(t) => t.next_interval(p, Ghost(n)),
            NodeState::Phrase(t) => t.next_interval(p, Ghost(n)),
            NodeState::Filter(f) => f.next_interval(p, Ghost(n)),
            NodeState::Relation(r) => r.next_interval(p, Ghost(n)),
            NodeState::Or(o) => o.next_interval(p, Ghost(n)),
            NodeState::Ordered(o) => o.next_interval(p, Ghost(n)),
            NodeState::Unordered(u) => u.next_interval(p, Ghost(n)),
        }
    }
}

} // verus!
