//! Positional window filters (`IN FIRST`, `IN LAST`, `IN MIDDLE`, `IN WORDS`)
//! resolved against a document length.
use vstd::prelude::*;
use crate::interval::{Interval, wf_interval, spec_width};
use crate::text::{decimal, push_decimal, push_str, string_from_chars};

verus! {

/// Bound shared by the `FIRST` and `LAST` filters: a word count or a
/// percentage of the document.
#[derive(Clone, Copy, Debug, PartialEq, Eq, Structural)]
pub enum PositionFilterBound {
    Absolute(u32),
    Percent(u32),
}

/// Positional filter applied to span intervals after the base query has
/// been evaluated.
#[derive(Clone, Copy, Debug, PartialEq, Eq, Structural)]
pub enum SpanPositionFilter {
    First(PositionFilterBound),
    Last(PositionFilterBound),
    Middle { percent: u32 },
    Between { lo: u32, hi: u32 },
}

/// Inclusive token-position window resolved for one document.
#[derive(Clone, Copy, Debug, PartialEq, Eq, Structural)]
pub struct ResolvedPositionWindow {
    pub lo: u32,
    pub hi: u32,
}

/// The number of words in `percent`% of a document of `doc_len` words,
/// rounded up and computed exactly; percentages above 100 count as 100.
pub open spec fn spec_percent_count(doc_len: u32, percent: u32) -> int {
    let p = if percent > 100 { 100 } else { percent as int };
    (doc_len * p + 99) / 100
}

/// A percentage of a document never counts more words than it has.
pub proof fn lemma_percent_count_bound(doc_len: u32, percent: u32)
    ensures
        0 <= spec_percent_count(doc_len, percent) <= doc_len,
{
    let p = if percent > 100 { 100 } else { percent as int };
    assert(0 <= (doc_len * p + 99) / 100 <= doc_len) by (nonlinear_arith)
        requires
            0 <= p <= 100,
            0 <= doc_len;
}

/// The window of `count` words starting at `start`, if it is non-empty
/// and ends within `u32` range.
pub open spec fn spec_from_start_count(start: int, count: int) -> Option<ResolvedPositionWindow> {
    if count == 0 || start + count - 1 > u32::MAX {
        None
    } else {
        Some(ResolvedPositionWindow { lo: start as u32, hi: (start + count - 1) as u32 })
    }
}

/// Words excluded at each end by `IN MIDDLE percent%`: half of the
/// remaining `100 - percent`%, rounded up.
pub open spec fn spec_middle_excluded(doc_len: u32, percent: u32) -> int {
    let p = if percent > 100 { 100 } else { percent as int };
    (doc_len * (100 - p) + 199) / 200
}

/// The window a filter selects in a document of `doc_len` words.
pub open spec fn spec_resolve_window(f: SpanPositionFilter, doc_len: u32) -> Option<ResolvedPositionWindow> {
    match f {
        SpanPositionFilter::First(PositionFilterBound::Absolute(count)) => spec_from_start_count(0, count as int),
        SpanPositionFilter::First(PositionFilterBound::Percent(p)) =>
            spec_from_start_count(0, spec_percent_count(doc_len, p)),
        SpanPositionFilter::Last(PositionFilterBound::Absolute(count)) => {
            let c = if count > doc_len { doc_len as int } else { count as int };
            spec_from_start_count(doc_len - c, c)
        },
        SpanPositionFilter::Last(PositionFilterBound::Percent(p)) => {
            let c = spec_percent_count(doc_len, p);
            let start = if c > doc_len { 0 } else { doc_len - c };
            spec_from_start_count(start, c)
        },
        SpanPositionFilter::Middle { percent } => {
            let e = spec_middle_excluded(doc_len, percent);
            if doc_len - e - 1 >= e {
                Some(ResolvedPositionWindow { lo: e as u32, hi: (doc_len - e - 1) as u32 })
            } else {
                None
            }
        },
        SpanPositionFilter::Between { lo, hi } => if lo <= hi && hi >= 1 {
            Some(ResolvedPositionWindow { lo: (if lo < 1 { 0 } else { lo - 1 }) as u32, hi: (hi - 1) as u32 })
        } else {
            None
        },
    }
}

/// Filters whose window depends on the document length.
pub open spec fn spec_needs_doc_length(f: SpanPositionFilter) -> bool {
    match f {
        SpanPositionFilter::First(PositionFilterBound::Percent(_)) => true,
        SpanPositionFilter::Last(_) => true,
        SpanPositionFilter::Middle { .. } => true,
        _ => false,
    }
}

/// A match of `width` positions starting at `start` lies inside the window.
pub open spec fn window_admits(w: ResolvedPositionWindow, start: u32, width: u32) -> bool {
    width > 0 && start >= w.lo && start + width - 1 <= w.hi
}

fn percent_count(doc_len: u32, percent: u32) -> (r: u32)
    ensures
        r == spec_percent_count(doc_len, percent),
{
    let p: u32 = if percent > 100 { 100 } else { percent };
    assert((doc_len as u64) * (p as u64) <= u32::MAX as u64 * 100) by (nonlinear_arith)
        requires p <= 100;
    let wide: u64 = (doc_len as u64) * (p as u64);
    proof {
        lemma_percent_count_bound(doc_len, percent);
    }
    let q: u64 = (wide + 99) / 100;
    q as u32
}

impl ResolvedPositionWindow {
    /// Whether a match of `width` positions starting at `start` lies
    /// entirely within this window.
    pub fn matches_start_width(&self, start: u32, width: u32) -> (r: bool)
        ensures
            r == window_admits(*self, start, width),
    {
        if width == 0 || start < self.lo {
            return false;
        }
        match start.checked_add(width - 1) {
            None => false,
            Some(end) => end <= self.hi,
        }
    }

    /// Whether an interval lies entirely within this window.
    pub fn matches_interval(&self, interval: Interval) -> (r: bool)
        requires
            wf_interval(interval),
            spec_width(interval) <= u32::MAX,
        ensures
            r == (self.lo <= interval.start && interval.end <= self.hi),
    {
        if interval.start < self.lo {
            return false;
        }
        self.matches_start_width(interval.start, interval.width())
    }

    fn from_start_count(start: u32, count: u32) -> (r: Option<Self>)
        ensures
            r == spec_from_start_count(start as int, count as int),
    {
        if count == 0 {
            return None;
        }
        match start.checked_add(count - 1) {
            None => None,
            Some(hi) => Some(ResolvedPositionWindow { lo: start, hi }),
        }
    }
}

impl SpanPositionFilter {
    /// Whether resolving this filter depends on the document length.
    pub fn needs_doc_length(&self) -> (r: bool)
        ensures
            r == spec_needs_doc_length(*self),
    {
        match self {
            SpanPositionFilter::First(PositionFilterBound::Percent(_)) => true,
            SpanPositionFilter::Last(_) => true,
            SpanPositionFilter::Middle { .. } => true,
            _ => false,
        }
    }

    /// Resolve this filter against the given document length.
    pub fn resolve_window(&self, search_doc_len: u32) -> (r: Option<ResolvedPositionWindow>)
        ensures
            r == spec_resolve_window(*self, search_doc_len),
    {
        match *self {
            SpanPositionFilter::First(PositionFilterBound::Absolute(count)) => {
                ResolvedPositionWindow::from_start_count(0, count)
            },
            SpanPositionFilter::First(PositionFilterBound::Percent(percent)) => {
                ResolvedPositionWindow::from_start_count(0, percent_count(search_doc_len, percent))
            },
            SpanPositionFilter::Last(PositionFilterBound::Absolute(count)) => {
                let count = if count < search_doc_len { count } else { search_doc_len };
                let start = search_doc_len.saturating_sub(count);
                ResolvedPositionWindow::from_start_count(start, count)
            },
            SpanPositionFilter::Last(PositionFilterBound::Percent(percent)) => {
                let count = percent_count(search_doc_len, percent);
                let start = search_doc_len.saturating_sub(count);
                ResolvedPositionWindow::from_start_count(start, count)
            },
            SpanPositionFilter::Middle { percent } => {
                let p: u32 = if percent > 100 { 100 } else { percent };
                assert((search_doc_len as u64) * ((100 - p) as u64) <= u32::MAX as u64 * 100) by (nonlinear_arith)
                    requires p <= 100;
                let product: u64 = (search_doc_len as u64) * ((100 - p) as u64);
                let excluded64: u64 = if product % 200 == 0 { product / 200 } else { product / 200 + 1 };
                assert(excluded64 == spec_middle_excluded(search_doc_len, percent));
                assert(excluded64 <= search_doc_len) by (nonlinear_arith)
                    requires
                        product == search_doc_len * (100 - p),
                        p <= 100,
                        excluded64 == (product + 199) / 200,
                ;
                let excluded = excluded64 as u32;
                if excluded < search_doc_len && search_doc_len - (excluded + 1) >= excluded {
                    Some(ResolvedPositionWindow { lo: excluded, hi: search_doc_len - (excluded + 1) })
                } else {
                    None
                }
            },
            SpanPositionFilter::Between { lo, hi } => {
                if lo <= hi && hi >= 1 {
                    Some(ResolvedPositionWindow { lo: if lo < 1 { 0 } else { lo - 1 }, hi: hi - 1 })
                } else {
                    None
                }
            },
        }
    }

    /// Whether the interval lies in this filter's window for the document.
    pub fn matches_interval(&self, search_doc_len: u32, interval: Interval) -> (r: bool)
        requires
            wf_interval(interval),
            spec_width(interval) <= u32::MAX,
        ensures
            r == (spec_resolve_window(*self, search_doc_len) matches Some(w)
                && w.lo <= interval.start && interval.end <= w.hi),
    {
        match self.resolve_window(search_doc_len) {
            Some(window) => window.matches_interval(interval),
            None => false,
        }
    }

    /// Whether a match of `width` positions starting at `start` lies in
    /// this filter's window for the document.
    pub fn matches_start_width(&self, search_doc_len: u32, start: u32, width: u32) -> (r: bool)
        ensures
            r == (spec_resolve_window(*self, search_doc_len) matches Some(w)
                && window_admits(w, start, width)),
    {
        match self.resolve_window(search_doc_len) {
            Some(window) => window.matches_start_width(start, width),
            None => false,
        }
    }

    /// The query-language spelling of this filter, e.g. `IN FIRST 3 WORDS`.
    pub fn to_string(&self) -> (r: String)
        ensures
            r@ == spec_filter_text(*self),
    {
        let mut out: Vec<char> = Vec::new();
        match *self {
            SpanPositionFilter::First(PositionFilterBound::Absolute(n)) => {
                push_str(&mut out, "IN FIRST ");
                push_decimal(&mut out, n as u64);
                push_str(&mut out, " WORDS");
            },
            SpanPositionFilter::First(PositionFilterBound::Percent(n)) => {
                push_str(&mut out, "IN FIRST ");
                push_decimal(&mut out, n as u64);
                push_str(&mut out, "%");
            },
            SpanPositionFilter::Last(PositionFilterBound::Absolute(n)) => {
                push_str(&mut out, "IN LAST ");
                push_decimal(&mut out, n as u64);
                push_str(&mut out, " WORDS");
            },
            SpanPositionFilter::Last(PositionFilterBound::Percent(n)) => {
                push_str(&mut out, "IN LAST ");
                push_decimal(&mut out, n as u64);
                push_str(&mut out, "%");
            },
            SpanPositionFilter::Middle { percent } => {
                push_str(&mut out, "IN MIDDLE ");
                push_decimal(&mut out, percent as u64);
                push_str(&mut out, "%");
            },
            SpanPositionFilter::Between { lo, hi } => {
                push_str(&mut out, "IN WORDS ");
                push_decimal(&mut out, lo as u64);
                push_str(&mut out, " TO ");
                push_decimal(&mut out, hi as u64);
            },
        }
        assert(out@ =~= spec_filter_text(*self));
        string_from_chars(&out)
    }
}

/// The query-language spelling of a filter.
pub open spec fn spec_filter_text(f: SpanPositionFilter) -> Seq<char> {
    match f {
        SpanPositionFilter::First(PositionFilterBound::Absolute(n)) => "IN FIRST "@ + decimal(n as nat) + " WORDS"@,
        SpanPositionFilter::First(PositionFilterBound::Percent(n)) => "IN FIRST "@ + decimal(n as nat) + "%"@,
        SpanPositionFilter::Last(PositionFilterBound::Absolute(n)) => "IN LAST "@ + decimal(n as nat) + " WORDS"@,
        SpanPositionFilter::Last(PositionFilterBound::Percent(n)) => "IN LAST "@ + decimal(n as nat) + "%"@,
        SpanPositionFilter::Middle { percent } => "IN MIDDLE "@ + decimal(percent as nat) + "%"@,
        SpanPositionFilter::Between { lo, hi } => "IN WORDS "@ + decimal(lo as nat) + " TO "@ + decimal(hi as nat),
    }
}

/// `IN MIDDLE p%` never overlaps `IN FIRST q%` or `IN LAST q%` when the two
/// ends split the remaining percentage evenly (`p + 2q == 100`): the middle
/// window starts after the first window ends and ends before the last
/// window starts.
pub proof fn lemma_middle_excludes_ends(doc_len: u32, p: u32, q: u32)
    requires
        p + 2 * q == 100,
        spec_resolve_window(SpanPositionFilter::Middle { percent: p }, doc_len) is Some,
    ensures
        spec_resolve_window(SpanPositionFilter::First(PositionFilterBound::Percent(q)), doc_len) matches Some(first)
            ==> first.hi < spec_resolve_window(SpanPositionFilter::Middle { percent: p }, doc_len)->0.lo,
        spec_resolve_window(SpanPositionFilter::Last(PositionFilterBound::Percent(q)), doc_len) matches Some(last)
            ==> spec_resolve_window(SpanPositionFilter::Middle { percent: p }, doc_len)->0.hi < last.lo,
{
    let e = spec_middle_excluded(doc_len, p);
    let c = spec_percent_count(doc_len, q);
    assert(doc_len * (100 - p) == 2 * (doc_len * q)) by (nonlinear_arith)
        requires p + 2 * q == 100;
    assert(c <= e) by (nonlinear_arith)
        requires
            c == (doc_len * q + 99) / 100,
            e == (doc_len * (100 - p) + 199) / 200,
            doc_len * (100 - p) == 2 * (doc_len * q),
    ;
}

/// The ends `IN MIDDLE p%` excludes are rounded exactly as `IN FIRST q%`
/// and `IN LAST q%` round when `p + 2q == 100`.
pub proof fn lemma_middle_rounds_like_ends(doc_len: u32, p: u32, q: u32)
    requires
        p + 2 * q == 100,
    ensures
        spec_middle_excluded(doc_len, p) == spec_percent_count(doc_len, q),
{
    let x = doc_len * q;
    assert(doc_len * (100 - p) == 2 * x) by (nonlinear_arith)
        requires p + 2 * q == 100, x == doc_len * q;
    let a = x / 100;
    let b = x % 100;
    assert(x == 100 * a + b && 0 <= b < 100) by (nonlinear_arith)
        requires x >= 0, a == x / 100, b == x % 100;
    assert((2 * x + 199) / 200 == (x + 99) / 100) by (nonlinear_arith)
        requires x == 100 * a + b, 0 <= b < 100, a >= 0;
}

/// `IN WORDS 1 TO n` selects the same window as `IN FIRST n WORDS`, and a
/// lower bound of 0 counts as 1.
pub proof fn lemma_words_count_from_one(n: u32, hi: u32, doc_len: u32)
    ensures
        n >= 1 ==> spec_resolve_window(SpanPositionFilter::Between { lo: 1, hi: n }, doc_len)
            == spec_resolve_window(SpanPositionFilter::First(PositionFilterBound::Absolute(n)), doc_len),
        spec_resolve_window(SpanPositionFilter::Between { lo: 0, hi }, doc_len)
            == spec_resolve_window(SpanPositionFilter::Between { lo: 1, hi }, doc_len),
{
}

/// Every resolved window is non-empty.
pub proof fn lemma_resolved_window_nonempty(f: SpanPositionFilter, doc_len: u32)
    ensures
        spec_resolve_window(f, doc_len) matches Some(w) ==> w.lo <= w.hi,
{
}

} // verus!
