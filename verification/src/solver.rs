//! A span query compiled once and evaluated against many documents.
use vstd::prelude::*;
use crate::interval::{Interval, spec_contains};
use crate::query::{SpanError, SpanQuery, SpanTree, query_valid, spec_num_terms, validation_result};
use crate::positions::{TermPositions, positions_ok, strict_positions};
use crate::eval::{NodeState, ok_iv, le2, origin, exact_phrase_terms, phrase_at};

verus! {

/// A sequence of intervals sorted by start and by end: each is no earlier
/// than the ones before it in both coordinates.
pub open spec fn sorted_intervals(s: Seq<Interval>) -> bool {
    forall|i: int, j: int| 0 <= i < j < s.len() ==> le2(#[trigger] s[i], #[trigger] s[j])
}

/// Each interval starts and ends strictly after the ones before it.
pub open spec fn strictly_increasing(s: Seq<Interval>) -> bool {
    forall|i: int, j: int| 0 <= i < j < s.len() ==> #[trigger] s[i].start < #[trigger] s[j].start
        && s[i].end < s[j].end
}

/// Intervals that strictly increase in both coordinates form an antichain:
/// no interval of the sequence contains another one, and none repeats.
pub proof fn lemma_results_are_minimal(s: Seq<Interval>, i: int, j: int)
    requires
        strictly_increasing(s),
        0 <= i < s.len(),
        0 <= j < s.len(),
        i != j,
    ensures
        !spec_contains(s[i], s[j]),
        s[i] != s[j],
{
    if i < j {
        assert(s[i].start < s[j].start && s[i].end < s[j].end);
    } else {
        assert(s[j].start < s[i].start && s[j].end < s[i].end);
    }
}

/// The point intervals of a position list, in order.
pub open spec fn points(l: Seq<u32>) -> Seq<Interval> {
    l.map_values(|x: u32| Interval { start: x, end: x })
}

/// The interval spanned by an occurrence, starting at `s`, of a phrase of
/// `len` terms.
pub open spec fn phrase_span(s: u32, len: nat) -> Interval {
    Interval { start: s, end: (s + len - 1) as u32 }
}

/// The positions at which the phrase of terms `ts` occurs.
pub open spec fn phrase_starts<P: TermPositions>(p: &P, ts: Seq<usize>) -> Set<u32> {
    Set::new(|s: u32| phrase_at(p, ts, s))
}

/// Compiled evaluator for a [`SpanQuery`]: validated and compiled once,
/// then run against the position lists of one document after another.
pub struct SpanSolver {
    root: NodeState,
    num_terms: usize,
    query: Ghost<SpanTree>,
}

impl SpanSolver {
    /// The solver's internal invariant.
    pub closed spec fn wf(&self) -> bool {
        &&& self.root.shape(self.num_terms as nat)
        &&& self.query@ matches SpanTree::Term(i) ==> self.root.term_leaf() == Some(i)
        &&& exact_phrase_terms(self.query@) matches Some(ts) ==> (ts.len() - 1 <= u32::MAX
            ==> self.root.phrase_leaf() == Some(ts))
    }

    /// The query the solver evaluates.
    pub closed spec fn query(&self) -> SpanTree {
        self.query@
    }

    /// Number of position lists an evaluation reads.
    pub closed spec fn terms_needed(&self) -> usize {
        self.num_terms
    }

    /// Validate `query` against the number of terms it references, then
    /// compile it.
    pub fn new(query: &SpanQuery) -> (r: Result<SpanSolver, SpanError>)
        requires
            spec_num_terms(query@) <= usize::MAX,
        ensures
            r is Ok <==> query_valid(query@, spec_num_terms(query@) as usize),
            r matches Err(e) ==> validation_result(query@, spec_num_terms(query@) as usize) == Err::<(), SpanError>(e),
            r matches Ok(s) ==> s.wf() && s.terms_needed() == spec_num_terms(query@) && s.query() == query@,
    {
        let num_terms = query.num_terms();
        match query.validate(num_terms) {
            Err(e) => Err(e),
            Ok(()) => {
                let root = NodeState::compile(query, Ghost(num_terms));
                Ok(SpanSolver { root, num_terms, query: Ghost(query@) })
            },
        }
    }

    /// Number of position lists an evaluation reads: one past the largest
    /// term index of the query.
    pub fn num_terms(&self) -> (r: usize)
        ensures
            r == self.terms_needed(),
    {
        self.num_terms
    }

    /// All intervals of the query in the document whose position lists
    /// `positions` holds, in the order the evaluator produces them.
    pub fn intervals<P: TermPositions>(&mut self, positions: &P) -> (r: Vec<Interval>)
        requires
            old(self).wf(),
            positions_ok(positions, old(self).terms_needed() as nat),
        ensures
            final(self).wf(),
            final(self).terms_needed() == old(self).terms_needed(),
            forall|i: int| 0 <= i < r@.len() ==> ok_iv(#[trigger] r@[i]),
            sorted_intervals(r@),
            strict_positions(positions, old(self).terms_needed() as nat) ==> strictly_increasing(r@),
            final(self).query() == old(self).query(),
            old(self).query() matches SpanTree::Term(i) ==> r@ == points(positions.list(i as int)),
            exact_phrase_terms(old(self).query()) matches Some(ts) ==> (ts.len() - 1 <= u32::MAX ==> {
                &&& forall|s: u32| phrase_at(positions, ts, s) <==> r@.contains(phrase_span(s, ts.len()))
                &&& forall|j: int| 0 <= j < r@.len() ==> (#[trigger] r@[j]) == phrase_span(r@[j].start, ts.len())
            }),
    {
        let ghost n = self.num_terms as nat;
        self.root.reset(positions, Ghost(n));
        let mut out: Vec<Interval> = Vec::new();
        loop
            invariant
                self.root.wf(positions, n),
                n == self.num_terms,
                self.num_terms == old(self).num_terms,
                positions_ok(positions, n),
                forall|i: int| 0 <= i < out@.len() ==> ok_iv(#[trigger] out@[i]),
                sorted_intervals(out@),
                out@.len() > 0 ==> out@.last() == self.root.floor(positions),
                out@.len() == 0 ==> self.root.floor(positions) == origin(),
                out@.len() > 0 ==> self.root.started(positions),
                strict_positions(positions, n) ==> strictly_increasing(out@),
                self.query == old(self).query,
                self.wf(),
                self.query@ matches SpanTree::Term(i) ==> self.root.term_read() <= positions.list(i as int).len()
                    && out@ == points(positions.list(i as int).take(self.root.term_read() as int)),
                exact_phrase_terms(self.query@) matches Some(ts) ==> (ts.len() - 1 <= u32::MAX ==> {
                    &&& forall|s: u32| phrase_at(positions, ts, s) ==> #[trigger] self.root.phrase_owed(positions, s)
                        || out@.contains(phrase_span(s, ts.len()))
                    &&& forall|j: int| 0 <= j < out@.len() ==> phrase_at(positions, ts, (#[trigger] out@[j]).start)
                        && out@[j] == phrase_span(out@[j].start, ts.len())
                }),
            decreases self.root.fuel(positions),
        {
            let ghost before = out@;
            let ghost root_before = self.root;
            match self.root.next_interval(positions, Ghost(n)) {
                Some(iv) => {
                    out.push(iv);
                    proof {
                        self.root.lemma_wf_shape(positions, n);
                        assert forall|i: int, j: int| 0 <= i < j < out@.len() implies le2(#[trigger] out@[i], #[trigger] out@[j]) by {
                            if j == out@.len() - 1 && i < j {
                                assert(le2(before[i], before.last()));
                            }
                        }
                        if strict_positions(positions, n) {
                            assert forall|i: int, j: int| 0 <= i < j < out@.len() implies #[trigger] out@[i].start < #[trigger] out@[j].start
                                && out@[i].end < out@[j].end by {
                                if j == out@.len() - 1 {
                                    assert(le2(before[i], before.last()));
                                }
                            }
                        }
                        match self.query@ {
                            SpanTree::Term(t) => {
                                let l = positions.list(t as int);
                                let k = root_before.term_read() as int;
                                assert(l.take(k + 1) =~= l.take(k).push(l[k]));
                                assert(points(l.take(k + 1)) =~= points(l.take(k)).push(iv));
                            },
                            _ => {},
                        }
                        if let Some(ts) = exact_phrase_terms(self.query@) {
                            if ts.len() - 1 <= u32::MAX {
                                assert(iv == phrase_span(iv.start, ts.len()));
                                assert forall|s: u32| phrase_at(positions, ts, s) implies #[trigger] self.root.phrase_owed(positions, s)
                                    || out@.contains(phrase_span(s, ts.len())) by {
                                    if !self.root.phrase_owed(positions, s) {
                                        if root_before.phrase_owed(positions, s) {
                                            assert(out@[out@.len() - 1] == phrase_span(s, ts.len()));
                                        } else {
                                            let j = choose|j: int| 0 <= j < before.len() && before[j] == phrase_span(s, ts.len());
                                            assert(out@[j] == phrase_span(s, ts.len()));
                                        }
                                    }
                                }
                                assert forall|j: int| 0 <= j < out@.len() implies phrase_at(positions, ts, (#[trigger] out@[j]).start)
                                    && out@[j] == phrase_span(out@[j].start, ts.len()) by {
                                    if j < before.len() {
                                        assert(out@[j] == before[j]);
                                    }
                                }
                            }
                        }
                    }
                },
                None => {
                    proof {
                        self.root.lemma_wf_shape(positions, n);
                        match self.query@ {
                            SpanTree::Term(t) => {
                                let l = positions.list(t as int);
                                assert(l.take(l.len() as int) =~= l);
                            },
                            _ => {},
                        }
                        if let Some(ts) = exact_phrase_terms(self.query@) {
                            if ts.len() - 1 <= u32::MAX {
                                assert forall|s: u32| phrase_at(positions, ts, s) <==> out@.contains(phrase_span(s, ts.len())) by {
                                    if out@.contains(phrase_span(s, ts.len())) {
                                        let j = choose|j: int| 0 <= j < out@.len() && out@[j] == phrase_span(s, ts.len());
                                        assert(phrase_at(positions, ts, out@[j].start));
                                    }
                                    if phrase_at(positions, ts, s) {
                                        assert(!self.root.phrase_owed(positions, s));
                                        assert(!root_before.phrase_owed(positions, s));
                                    }
                                }
                            }
                        }
                    }
                    return out;
                },
            }
        }
    }

    /// Number of intervals of the query in the document.
    pub fn span_freq<P: TermPositions>(&mut self, positions: &P) -> (r: usize)
        requires
            old(self).wf(),
            positions_ok(positions, old(self).terms_needed() as nat),
        ensures
            final(self).wf(),
            final(self).terms_needed() == old(self).terms_needed(),
            final(self).query() == old(self).query(),
            old(self).query() matches SpanTree::Term(i) ==> r == positions.list(i as int).len(),
            exact_phrase_terms(old(self).query()) matches Some(ts) ==> (ts.len() - 1 <= u32::MAX
                && strict_positions(positions, old(self).terms_needed() as nat)
                ==> r == phrase_starts(positions, ts).len()),
    {
        let found = self.intervals(positions);
        proof {
            if let Some(ts) = exact_phrase_terms(old(self).query()) {
                if ts.len() - 1 <= u32::MAX && strict_positions(positions, old(self).terms_needed() as nat) {
                    let starts = found@.map_values(|iv: Interval| iv.start);
                    assert(starts.no_duplicates()) by {
                        assert forall|i: int, j: int| 0 <= i < starts.len() && 0 <= j < starts.len() && i != j
                            implies starts[i] != starts[j] by {
                            if i < j {
                                assert(found@[i].start < found@[j].start);
                            } else {
                                assert(found@[j].start < found@[i].start);
                            }
                        }
                    }
                    starts.unique_seq_to_set();
                    assert(starts.to_set() =~= phrase_starts(positions, ts)) by {
                        assert forall|x: u32| starts.to_set().contains(x) <==> phrase_starts(positions, ts).contains(x) by {
                            if starts.to_set().contains(x) {
                                let j = choose|j: int| 0 <= j < starts.len() && starts[j] == x;
                                assert(found@[j] == phrase_span(x, ts.len()));
                                assert(found@.contains(phrase_span(x, ts.len())));
                            }
                            if phrase_at(positions, ts, x) {
                                assert(found@.contains(phrase_span(x, ts.len())));
                                let j = choose|j: int| 0 <= j < found@.len() && found@[j] == phrase_span(x, ts.len());
                                assert(starts[j] == x);
                            }
                        }
                    }
                }
            }
        }
        found.len()
    }
}

} // verus!
