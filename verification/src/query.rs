//! The span-query operator tree and its validation.
use vstd::prelude::*;
use crate::text::{decimal, push_decimal, push_str, string_from_chars};

verus! {

/// Why a span query tree is rejected.
#[derive(Debug, PartialEq, Eq, Structural)]
pub enum SpanError {
    TermIndexOutOfRange { index: usize, num_terms: usize },
    TooFewChildren { min: usize, got: usize },
    EmptyQuery,
}

/// The message of a span-query error.
pub open spec fn span_error_text(e: SpanError) -> Seq<char> {
    match e {
        SpanError::TermIndexOutOfRange { index, num_terms } =>
            "term index "@ + decimal(index as nat) + " out of range (num_terms = "@ + decimal(num_terms as nat) + ")"@,
        SpanError::TooFewChildren { min, got } =>
            "operator requires at least "@ + decimal(min as nat) + " children, got "@ + decimal(got as nat),
        SpanError::EmptyQuery => "empty query"@,
    }
}

impl SpanError {
    /// The error's message, e.g. `term index 5 out of range (num_terms = 3)`.
    pub fn to_string(&self) -> (r: String)
        ensures
            r@ == span_error_text(*self),
    {
        let mut out: Vec<char> = Vec::new();
        match *self {
            SpanError::TermIndexOutOfRange { index, num_terms } => {
                push_str(&mut out, "term index ");
                push_decimal(&mut out, index as u64);
                push_str(&mut out, " out of range (num_terms = ");
                push_decimal(&mut out, num_terms as u64);
                push_str(&mut out, ")");
            },
            SpanError::TooFewChildren { min, got } => {
                push_str(&mut out, "operator requires at least ");
                push_decimal(&mut out, min as u64);
                push_str(&mut out, " children, got ");
                push_decimal(&mut out, got as u64);
            },
            SpanError::EmptyQuery => {
                push_str(&mut out, "empty query");
            },
        }
        assert(out@ =~= span_error_text(*self));
        string_from_chars(&out)
    }
}

/// The operator tree for a span query.
///
/// Every `Term(i)` leaf references a term by index; the indices correspond
/// to the position lists supplied at evaluation time.
#[derive(Debug, PartialEq, Eq, Hash)]
pub enum SpanQuery {
    /// Empty interval stream: matches nothing.
    Empty,
    /// Positions for the term at this index: produces `[pos, pos]` intervals.
    Term(usize),
    /// Ordered sequence: children in document order, non-overlapping.
    Ordered(Vec<SpanQuery>),
    /// Unordered conjunction: one interval from each child, in any order.
    Unordered(Vec<SpanQuery>),
    /// Disjunction: union of child streams, keeping only minimal intervals.
    Or(Vec<SpanQuery>),
    /// Keep intervals from `inner` whose gap count is at most `max_gaps`.
    MaxGaps { max_gaps: u32, inner: Box<SpanQuery> },
    /// Keep intervals from `inner` whose gap count is in `min_gaps..=max_gaps`.
    GapsInRange { min_gaps: u32, max_gaps: u32, inner: Box<SpanQuery> },
    /// Keep intervals from `inner` with width at most `max_width`.
    MaxWidth { max_width: u32, inner: Box<SpanQuery> },
    /// Keep intervals with `start >= lo` and `end <= hi`.
    WithinPositions { inner: Box<SpanQuery>, lo: u32, hi: u32 },
    /// Intervals from `big` that contain at least one interval from `little`.
    Containing { big: Box<SpanQuery>, little: Box<SpanQuery> },
    /// Intervals from `little` contained by at least one interval from `big`.
    ContainedBy { little: Box<SpanQuery>, big: Box<SpanQuery> },
    /// Intervals from `big` that contain no interval from `little`.
    NotContaining { big: Box<SpanQuery>, little: Box<SpanQuery> },
    /// Intervals from `little` contained by no interval from `big`.
    NotContainedBy { little: Box<SpanQuery>, big: Box<SpanQuery> },
    /// Intervals from `a` that overlap at least one interval from `b`.
    Overlapping { a: Box<SpanQuery>, b: Box<SpanQuery> },
    /// Intervals from `a` that overlap no interval from `b`.
    NonOverlapping { a: Box<SpanQuery>, b: Box<SpanQuery> },
    /// Intervals from `a` for which some interval from `b` starts later.
    Before { a: Box<SpanQuery>, b: Box<SpanQuery> },
    /// Intervals from `a` for which some interval from `b` starts earlier.
    After { a: Box<SpanQuery>, b: Box<SpanQuery> },
}

/// The mathematical model of a span query: the same operator tree with
/// sequences in place of vectors.
pub enum SpanTree {
    Empty,
    Term(usize),
    Ordered(Seq<SpanTree>),
    Unordered(Seq<SpanTree>),
    Or(Seq<SpanTree>),
    MaxGaps { max_gaps: u32, inner: Box<SpanTree> },
    GapsInRange { min_gaps: u32, max_gaps: u32, inner: Box<SpanTree> },
    MaxWidth { max_width: u32, inner: Box<SpanTree> },
    WithinPositions { inner: Box<SpanTree>, lo: u32, hi: u32 },
    Containing { big: Box<SpanTree>, little: Box<SpanTree> },
    ContainedBy { little: Box<SpanTree>, big: Box<SpanTree> },
    NotContaining { big: Box<SpanTree>, little: Box<SpanTree> },
    NotContainedBy { little: Box<SpanTree>, big: Box<SpanTree> },
    Overlapping { a: Box<SpanTree>, b: Box<SpanTree> },
    NonOverlapping { a: Box<SpanTree>, b: Box<SpanTree> },
    Before { a: Box<SpanTree>, b: Box<SpanTree> },
    After { a: Box<SpanTree>, b: Box<SpanTree> },
}

/// The model of a query.
pub open spec fn tree_of(q: SpanQuery) -> SpanTree
    decreases q,
{
    match q {
        SpanQuery::Empty => SpanTree::Empty,
        SpanQuery::Term(i) => SpanTree::Term(i),
        SpanQuery::Ordered(ch) => SpanTree::Ordered(trees_of(ch@)),
        SpanQuery::Unordered(ch) => SpanTree::Unordered(trees_of(ch@)),
        SpanQuery::Or(ch) => SpanTree::Or(trees_of(ch@)),
        SpanQuery::MaxGaps { max_gaps, inner } => SpanTree::MaxGaps {
            max_gaps,
            inner: Box::new(tree_of(*inner)),
        },
        SpanQuery::GapsInRange { min_gaps, max_gaps, inner } => SpanTree::GapsInRange {
            min_gaps,
            max_gaps,
            inner: Box::new(tree_of(*inner)),
        },
        SpanQuery::MaxWidth { max_width, inner } => SpanTree::MaxWidth {
            max_width,
            inner: Box::new(tree_of(*inner)),
        },
        SpanQuery::WithinPositions { inner, lo, hi } => SpanTree::WithinPositions {
            inner: Box::new(tree_of(*inner)),
            lo,
            hi,
        },
        SpanQuery::Containing { big, little } => SpanTree::Containing {
            big: Box::new(tree_of(*big)),
            little: Box::new(tree_of(*little)),
        },
        SpanQuery::ContainedBy { little, big } => SpanTree::ContainedBy {
            little: Box::new(tree_of(*little)),
            big: Box::new(tree_of(*big)),
        },
        SpanQuery::NotContaining { big, little } => SpanTree::NotContaining {
            big: Box::new(tree_of(*big)),
            little: Box::new(tree_of(*little)),
        },
        SpanQuery::NotContainedBy { little, big } => SpanTree::NotContainedBy {
            little: Box::new(tree_of(*little)),
            big: Box::new(tree_of(*big)),
        },
        SpanQuery::Overlapping { a, b } => SpanTree::Overlapping {
            a: Box::new(tree_of(*a)),
            b: Box::new(tree_of(*b)),
        },
        SpanQuery::NonOverlapping { a, b } => SpanTree::NonOverlapping {
            a: Box::new(tree_of(*a)),
            b: Box::new(tree_of(*b)),
        },
        SpanQuery::Before { a, b } => SpanTree::Before {
            a: Box::new(tree_of(*a)),
            b: Box::new(tree_of(*b)),
        },
        SpanQuery::After { a, b } => SpanTree::After {
            a: Box::new(tree_of(*a)),
            b: Box::new(tree_of(*b)),
        },
    }
}

/// The models of a list of queries, in order.
pub open spec fn trees_of(s: Seq<SpanQuery>) -> Seq<SpanTree>
    decreases s,
{
    if s.len() == 0 {
        Seq::empty()
    } else {
        trees_of(s.drop_last()).push(tree_of(s.last()))
    }
}

impl View for SpanQuery {
    type V = SpanTree;

    open spec fn view(&self) -> SpanTree {
        tree_of(*self)
    }
}

/// The models of a list keep its length and are taken element by element.
pub proof fn lemma_trees_of_index(s: Seq<SpanQuery>)
    ensures
        trees_of(s).len() == s.len(),
        forall|i: int| 0 <= i < s.len() ==> #[trigger] trees_of(s)[i] == tree_of(s[i]),
    decreases s,
{
    if s.len() > 0 {
        lemma_trees_of_index(s.drop_last());
    }
}

/// The model of a one-longer prefix extends the model of the prefix.
pub proof fn lemma_trees_of_take(s: Seq<SpanQuery>, i: int)
    requires
        0 <= i < s.len(),
    ensures
        trees_of(s.take(i + 1)) == trees_of(s.take(i)).push(tree_of(s[i])),
{
    assert(s.take(i + 1).drop_last() == s.take(i));
}

/// The larger of two optional indices; an absent side is ignored.
pub open spec fn max_opt(a: Option<usize>, b: Option<usize>) -> Option<usize> {
    match (a, b) {
        (Some(x), Some(y)) => Some(if x >= y { x } else { y }),
        (Some(x), None) => Some(x),
        (None, y) => y,
    }
}

/// Largest term index referenced anywhere in `t`.
pub open spec fn max_term(t: SpanTree) -> Option<usize>
    decreases t,
{
    match t {
        SpanTree::Empty => None,
        SpanTree::Term(i) => Some(i),
        SpanTree::Ordered(ch) => max_term_seq(ch),
        SpanTree::Unordered(ch) => max_term_seq(ch),
        SpanTree::Or(ch) => max_term_seq(ch),
        SpanTree::MaxGaps { inner, .. } => max_term(*inner),
        SpanTree::GapsInRange { inner, .. } => max_term(*inner),
        SpanTree::MaxWidth { inner, .. } => max_term(*inner),
        SpanTree::WithinPositions { inner, .. } => max_term(*inner),
        SpanTree::Containing { big, little } => max_opt(max_term(*big), max_term(*little)),
        SpanTree::ContainedBy { little, big } => max_opt(max_term(*little), max_term(*big)),
        SpanTree::NotContaining { big, little } => max_opt(max_term(*big), max_term(*little)),
        SpanTree::NotContainedBy { little, big } => max_opt(max_term(*little), max_term(*big)),
        SpanTree::Overlapping { a, b } => max_opt(max_term(*a), max_term(*b)),
        SpanTree::NonOverlapping { a, b } => max_opt(max_term(*a), max_term(*b)),
        SpanTree::Before { a, b } => max_opt(max_term(*a), max_term(*b)),
        SpanTree::After { a, b } => max_opt(max_term(*a), max_term(*b)),
    }
}

/// Largest term index referenced by any tree of `s`.
pub open spec fn max_term_seq(s: Seq<SpanTree>) -> Option<usize>
    decreases s,
{
    if s.len() == 0 {
        None
    } else {
        max_opt(max_term_seq(s.drop_last()), max_term(s.last()))
    }
}

/// Number of distinct term indices a query needs: one past its largest index.
pub open spec fn spec_num_terms(t: SpanTree) -> int {
    match max_term(t) {
        Some(i) => i + 1,
        None => 0,
    }
}

/// `t` is a valid tree over `n` terms: every term index is below `n`,
/// ordered and unordered nodes have at least two children, and
/// disjunctions have at least one.
pub open spec fn query_valid(t: SpanTree, n: usize) -> bool
    decreases t,
{
    match t {
        SpanTree::Empty => true,
        SpanTree::Term(i) => i < n,
        SpanTree::Ordered(ch) => ch.len() >= 2 && all_valid(ch, n),
        SpanTree::Unordered(ch) => ch.len() >= 2 && all_valid(ch, n),
        SpanTree::Or(ch) => ch.len() >= 1 && all_valid(ch, n),
        SpanTree::MaxGaps { inner, .. } => query_valid(*inner, n),
        SpanTree::GapsInRange { inner, .. } => query_valid(*inner, n),
        SpanTree::MaxWidth { inner, .. } => query_valid(*inner, n),
        SpanTree::WithinPositions { inner, .. } => query_valid(*inner, n),
        SpanTree::Containing { big, little } => query_valid(*big, n) && query_valid(*little, n),
        SpanTree::ContainedBy { little, big } => query_valid(*little, n) && query_valid(*big, n),
        SpanTree::NotContaining { big, little } => query_valid(*big, n) && query_valid(*little, n),
        SpanTree::NotContainedBy { little, big } => query_valid(*little, n) && query_valid(*big, n),
        SpanTree::Overlapping { a, b } => query_valid(*a, n) && query_valid(*b, n),
        SpanTree::NonOverlapping { a, b } => query_valid(*a, n) && query_valid(*b, n),
        SpanTree::Before { a, b } => query_valid(*a, n) && query_valid(*b, n),
        SpanTree::After { a, b } => query_valid(*a, n) && query_valid(*b, n),
    }
}

/// Every tree of `s` is valid over `n` terms.
pub open spec fn all_valid(s: Seq<SpanTree>, n: usize) -> bool
    decreases s,
{
    if s.len() == 0 {
        true
    } else {
        all_valid(s.drop_last(), n) && query_valid(s.last(), n)
    }
}

/// The first of two optional errors.
pub open spec fn or_else(a: Option<SpanError>, b: Option<SpanError>) -> Option<SpanError> {
    match a {
        Some(e) => Some(e),
        None => b,
    }
}

/// The error that validation reports: the first violation met in a
/// depth-first, left-to-right walk of the tree (a node's own arity check
/// comes before its children).
pub open spec fn first_error(t: SpanTree, n: usize) -> Option<SpanError>
    decreases t,
{
    match t {
        SpanTree::Empty => None,
        SpanTree::Term(i) => if i >= n {
            Some(SpanError::TermIndexOutOfRange { index: i, num_terms: n })
        } else {
            None
        },
        SpanTree::Ordered(ch) => if ch.len() < 2 {
            Some(SpanError::TooFewChildren { min: 2, got: ch.len() as usize })
        } else {
            first_error_seq(ch, n)
        },
        SpanTree::Unordered(ch) => if ch.len() < 2 {
            Some(SpanError::TooFewChildren { min: 2, got: ch.len() as usize })
        } else {
            first_error_seq(ch, n)
        },
        SpanTree::Or(ch) => if ch.len() == 0 {
            Some(SpanError::EmptyQuery)
        } else {
            first_error_seq(ch, n)
        },
        SpanTree::MaxGaps { inner, .. } => first_error(*inner, n),
        SpanTree::GapsInRange { inner, .. } => first_error(*inner, n),
        SpanTree::MaxWidth { inner, .. } => first_error(*inner, n),
        SpanTree::WithinPositions { inner, .. } => first_error(*inner, n),
        SpanTree::Containing { big, little } => or_else(first_error(*big, n), first_error(*little, n)),
        SpanTree::ContainedBy { little, big } => or_else(first_error(*little, n), first_error(*big, n)),
        SpanTree::NotContaining { big, little } => or_else(first_error(*big, n), first_error(*little, n)),
        SpanTree::NotContainedBy { little, big } => or_else(first_error(*little, n), first_error(*big, n)),
        SpanTree::Overlapping { a, b } => or_else(first_error(*a, n), first_error(*b, n)),
        SpanTree::NonOverlapping { a, b } => or_else(first_error(*a, n), first_error(*b, n)),
        SpanTree::Before { a, b } => or_else(first_error(*a, n), first_error(*b, n)),
        SpanTree::After { a, b } => or_else(first_error(*a, n), first_error(*b, n)),
    }
}

/// The first error among the trees of `s`, left to right.
pub open spec fn first_error_seq(s: Seq<SpanTree>, n: usize) -> Option<SpanError>
    decreases s,
{
    if s.len() == 0 {
        None
    } else {
        or_else(first_error_seq(s.drop_last(), n), first_error(s.last(), n))
    }
}

/// Ordered and unordered nodes have at least two children and
/// disjunctions at least one, throughout `t`.
pub open spec fn arity_ok(t: SpanTree) -> bool
    decreases t,
{
    match t {
        SpanTree::Empty => true,
        SpanTree::Term(_) => true,
        SpanTree::Ordered(ch) => ch.len() >= 2 && all_arity_ok(ch),
        SpanTree::Unordered(ch) => ch.len() >= 2 && all_arity_ok(ch),
        SpanTree::Or(ch) => ch.len() >= 1 && all_arity_ok(ch),
        SpanTree::MaxGaps { inner, .. } => arity_ok(*inner),
        SpanTree::GapsInRange { inner, .. } => arity_ok(*inner),
        SpanTree::MaxWidth { inner, .. } => arity_ok(*inner),
        SpanTree::WithinPositions { inner, .. } => arity_ok(*inner),
        SpanTree::Containing { big, little } => arity_ok(*big) && arity_ok(*little),
        SpanTree::ContainedBy { little, big } => arity_ok(*little) && arity_ok(*big),
        SpanTree::NotContaining { big, little } => arity_ok(*big) && arity_ok(*little),
        SpanTree::NotContainedBy { little, big } => arity_ok(*little) && arity_ok(*big),
        SpanTree::Overlapping { a, b } => arity_ok(*a) && arity_ok(*b),
        SpanTree::NonOverlapping { a, b } => arity_ok(*a) && arity_ok(*b),
        SpanTree::Before { a, b } => arity_ok(*a) && arity_ok(*b),
        SpanTree::After { a, b } => arity_ok(*a) && arity_ok(*b),
    }
}

/// Every tree of `s` meets the arity rules.
pub open spec fn all_arity_ok(s: Seq<SpanTree>) -> bool
    decreases s,
{
    if s.len() == 0 {
        true
    } else {
        all_arity_ok(s.drop_last()) && arity_ok(s.last())
    }
}

/// An optional largest index is below `n`.
pub open spec fn below(o: Option<usize>, n: usize) -> bool {
    o matches Some(i) ==> i < n
}

/// A tree is valid over `n` terms exactly when its largest term index is
/// below `n` and it meets the arity rules.
proof fn lemma_valid_iff_bound_and_arity(t: SpanTree, n: usize)
    ensures
        query_valid(t, n) == (below(max_term(t), n) && arity_ok(t)),
    decreases t,
{
    match t {
        SpanTree::Ordered(ch) => lemma_all_valid_iff_bound_and_arity(ch, n),
        SpanTree::Unordered(ch) => lemma_all_valid_iff_bound_and_arity(ch, n),
        SpanTree::Or(ch) => lemma_all_valid_iff_bound_and_arity(ch, n),
        SpanTree::MaxGaps { inner, .. } => lemma_valid_iff_bound_and_arity(*inner, n),
        SpanTree::GapsInRange { inner, .. } => lemma_valid_iff_bound_and_arity(*inner, n),
        SpanTree::MaxWidth { inner, .. } => lemma_valid_iff_bound_and_arity(*inner, n),
        SpanTree::WithinPositions { inner, .. } => lemma_valid_iff_bound_and_arity(*inner, n),
        SpanTree::Containing { big, little } => {
            lemma_valid_iff_bound_and_arity(*big, n);
            lemma_valid_iff_bound_and_arity(*little, n);
        },
        SpanTree::ContainedBy { little, big } => {
            lemma_valid_iff_bound_and_arity(*little, n);
            lemma_valid_iff_bound_and_arity(*big, n);
        },
        SpanTree::NotContaining { big, little } => {
            lemma_valid_iff_bound_and_arity(*big, n);
            lemma_valid_iff_bound_and_arity(*little, n);
        },
        SpanTree::NotContainedBy { little, big } => {
            lemma_valid_iff_bound_and_arity(*little, n);
            lemma_valid_iff_bound_and_arity(*big, n);
        },
        SpanTree::Overlapping { a, b } => {
            lemma_valid_iff_bound_and_arity(*a, n);
            lemma_valid_iff_bound_and_arity(*b, n);
        },
        SpanTree::NonOverlapping { a, b } => {
            lemma_valid_iff_bound_and_arity(*a, n);
            lemma_valid_iff_bound_and_arity(*b, n);
        },
        SpanTree::Before { a, b } => {
            lemma_valid_iff_bound_and_arity(*a, n);
            lemma_valid_iff_bound_and_arity(*b, n);
        },
        SpanTree::After { a, b } => {
            lemma_valid_iff_bound_and_arity(*a, n);
            lemma_valid_iff_bound_and_arity(*b, n);
        },
        _ => {},
    }
}

/// Every tree of `s` is valid exactly when the largest index over `s` is
/// below `n` and every tree meets the arity rules.
proof fn lemma_all_valid_iff_bound_and_arity(s: Seq<SpanTree>, n: usize)
    ensures
        all_valid(s, n) == (below(max_term_seq(s), n) && all_arity_ok(s)),
    decreases s,
{
    if s.len() > 0 {
        lemma_all_valid_iff_bound_and_arity(s.drop_last(), n);
        lemma_valid_iff_bound_and_arity(s.last(), n);
    }
}

/// Validation succeeds exactly when the query needs no more than `n`
/// position lists and every ordered or unordered node has at least two
/// children and every disjunction at least one; so a query valid over `n`
/// lists is valid over any larger number.
pub proof fn lemma_validate_law(t: SpanTree, n: usize, m: usize)
    ensures
        validation_result(t, n) is Ok <==> (spec_num_terms(t) <= n && arity_ok(t)),
        validation_result(t, n) is Ok && n <= m ==> validation_result(t, m) is Ok,
{
    lemma_first_error_iff_invalid(t, n);
    lemma_first_error_iff_invalid(t, m);
    lemma_valid_iff_bound_and_arity(t, n);
    lemma_valid_iff_bound_and_arity(t, m);
}

/// A query that validates against `n` position lists validates against
/// any larger number.
pub proof fn lemma_validate_monotone(t: SpanTree, n: usize, m: usize)
    requires
        validation_result(t, n) is Ok,
        n <= m,
    ensures
        validation_result(t, m) is Ok,
{
    lemma_validate_law(t, n, m);
}

/// Validation reports no error exactly on valid trees.
pub proof fn lemma_first_error_iff_invalid(t: SpanTree, n: usize)
    ensures
        first_error(t, n) is None <==> query_valid(t, n),
    decreases t,
{
    match t {
        SpanTree::Ordered(ch) => lemma_first_error_seq_iff_invalid(ch, n),
        SpanTree::Unordered(ch) => lemma_first_error_seq_iff_invalid(ch, n),
        SpanTree::Or(ch) => lemma_first_error_seq_iff_invalid(ch, n),
        SpanTree::MaxGaps { inner, .. } => lemma_first_error_iff_invalid(*inner, n),
        SpanTree::GapsInRange { inner, .. } => lemma_first_error_iff_invalid(*inner, n),
        SpanTree::MaxWidth { inner, .. } => lemma_first_error_iff_invalid(*inner, n),
        SpanTree::WithinPositions { inner, .. } => lemma_first_error_iff_invalid(*inner, n),
        SpanTree::Containing { big, little } => {
            lemma_first_error_iff_invalid(*big, n);
            lemma_first_error_iff_invalid(*little, n);
        },
        SpanTree::ContainedBy { little, big } => {
            lemma_first_error_iff_invalid(*little, n);
            lemma_first_error_iff_invalid(*big, n);
        },
        SpanTree::NotContaining { big, little } => {
            lemma_first_error_iff_invalid(*big, n);
            lemma_first_error_iff_invalid(*little, n);
        },
        SpanTree::NotContainedBy { little, big } => {
            lemma_first_error_iff_invalid(*little, n);
            lemma_first_error_iff_invalid(*big, n);
        },
        SpanTree::Overlapping { a, b } => {
            lemma_first_error_iff_invalid(*a, n);
            lemma_first_error_iff_invalid(*b, n);
        },
        SpanTree::NonOverlapping { a, b } => {
            lemma_first_error_iff_invalid(*a, n);
            lemma_first_error_iff_invalid(*b, n);
        },
        SpanTree::Before { a, b } => {
            lemma_first_error_iff_invalid(*a, n);
            lemma_first_error_iff_invalid(*b, n);
        },
        SpanTree::After { a, b } => {
            lemma_first_error_iff_invalid(*a, n);
            lemma_first_error_iff_invalid(*b, n);
        },
        _ => {},
    }
}

/// The sequence form of [`lemma_first_error_iff_invalid`].
pub proof fn lemma_first_error_seq_iff_invalid(s: Seq<SpanTree>, n: usize)
    ensures
        first_error_seq(s, n) is None <==> all_valid(s, n),
    decreases s,
{
    if s.len() > 0 {
        lemma_first_error_seq_iff_invalid(s.drop_last(), n);
        lemma_first_error_iff_invalid(s.last(), n);
    }
}

/// The result of validation as a `Result`.
pub open spec fn validation_result(t: SpanTree, n: usize) -> Result<(), SpanError> {
    match first_error(t, n) {
        None => Ok(()),
        Some(e) => Err(e),
    }
}

fn max_term_children(children: &Vec<SpanQuery>) -> (r: Option<usize>)
    ensures
        r == max_term_seq(trees_of(children@)),
    decreases children@,
{
    let mut acc: Option<usize> = None;
    let mut i: usize = 0;
    while i < children.len()
        invariant
            i <= children@.len(),
            acc == max_term_seq(trees_of(children@.take(i as int))),
        decreases children@.len() - i,
    {
        proof {
            lemma_trees_of_take(children@, i as int);
            let t = trees_of(children@.take(i as int));
            assert(t.push(tree_of(children@[i as int])).drop_last() == t);
        }
        let m = children[i].max_term_index();
        acc = max_option(acc, m);
        i += 1;
    }
    assert(children@.take(children@.len() as int) == children@);
    acc
}

fn max_option(a: Option<usize>, b: Option<usize>) -> (r: Option<usize>)
    ensures
        r == max_opt(a, b),
{
    match (a, b) {
        (Some(x), Some(y)) => Some(if x >= y { x } else { y }),
        (Some(x), None) => Some(x),
        (None, y) => y,
    }
}

fn validate_children(children: &Vec<SpanQuery>, num_terms: usize) -> (r: Result<(), SpanError>)
    ensures
        r == (match first_error_seq(trees_of(children@), num_terms) {
            None => Ok(()),
            Some(e) => Err(e),
        }),
    decreases children@,
{
    let mut i: usize = 0;
    while i < children.len()
        invariant
            i <= children@.len(),
            first_error_seq(trees_of(children@.take(i as int)), num_terms) is None,
        decreases children@.len() - i,
    {
        proof {
            lemma_trees_of_take(children@, i as int);
            let t = trees_of(children@.take(i as int));
            assert(t.push(tree_of(children@[i as int])).drop_last() == t);
        }
        let r = children[i].validate(num_terms);
        if r.is_err() {
            proof {
                lemma_first_error_seq_extends(children@, num_terms, i as int + 1);
            }
            return r;
        }
        i += 1;
    }
    assert(children@.take(children@.len() as int) == children@);
    Ok(())
}

/// Once a prefix reports an error, the whole list reports the same one.
proof fn lemma_first_error_seq_extends(s: Seq<SpanQuery>, n: usize, k: int)
    requires
        0 < k <= s.len(),
        first_error_seq(trees_of(s.take(k)), n) is Some,
    ensures
        first_error_seq(trees_of(s), n) == first_error_seq(trees_of(s.take(k)), n),
    decreases s.len() - k,
{
    if k < s.len() {
        lemma_trees_of_take(s, k);
        let t = trees_of(s.take(k));
        assert(t.push(tree_of(s[k])).drop_last() == t);
        lemma_first_error_seq_extends(s, n, k + 1);
    } else {
        assert(s.take(k) == s);
    }
}

impl SpanQuery {
    /// Exact phrase: the terms in order with no gaps between them.
    pub fn phrase<const N: usize>(term_indices: [usize; N]) -> (r: SpanQuery)
        ensures
            r@ == phrase_tree(term_indices@, 0),
    {
        SpanQuery::sloppy_phrase(term_indices, 0)
    }

    /// Sloppy phrase: the terms in order, with at most `max_gaps` gaps.
    pub fn sloppy_phrase<const N: usize>(term_indices: [usize; N], max_gaps: u32) -> (r: SpanQuery)
        ensures
            r@ == phrase_tree(term_indices@, max_gaps),
    {
        let mut children: Vec<SpanQuery> = Vec::new();
        let mut i: usize = 0;
        while i < N
            invariant
                i <= N,
                term_indices@.len() == N,
                trees_of(children@) == term_leaves(term_indices@.take(i as int)),
            decreases N - i,
        {
            let ghost before = children@;
            let x = term_indices[i];
            children.push(SpanQuery::Term(x));
            proof {
                assert(children@.drop_last() == before);
                assert(children@.last() == SpanQuery::Term(x));
                assert(tree_of(SpanQuery::Term(x)) == SpanTree::Term(x));
                assert(trees_of(children@) == trees_of(before).push(SpanTree::Term(term_indices@[i as int])));
                assert(term_leaves(term_indices@.take(i + 1)) == term_leaves(term_indices@.take(i as int)).push(SpanTree::Term(term_indices@[i as int])));
            }
            i += 1;
        }
        assert(term_indices@.take(N as int) == term_indices@);
        let ghost leaves = trees_of(children@);
        let ordered = SpanQuery::Ordered(children);
        assert(ordered@ == SpanTree::Ordered(leaves));
        let r = SpanQuery::MaxGaps { max_gaps, inner: Box::new(ordered) };
        assert(r@ == phrase_tree(term_indices@, max_gaps));
        r
    }

    /// Match within the first `n` token positions of the document.
    pub fn first_n(inner: SpanQuery, n: u32) -> (r: SpanQuery)
        requires
            n >= 1,
        ensures
            r@ == (SpanTree::WithinPositions { inner: Box::new(inner@), lo: 0, hi: (n - 1) as u32 }),
    {
        SpanQuery::WithinPositions { inner: Box::new(inner), lo: 0, hi: n - 1 }
    }

    /// Maximum term index referenced anywhere in this query tree.
    pub fn max_term_index(&self) -> (r: Option<usize>)
        ensures
            r == max_term(self@),
        decreases *self,
    {
        match self {
            SpanQuery::Empty => None,
            SpanQuery::Term(i) => Some(*i),
            SpanQuery::Ordered(children) => max_term_children(children),
            SpanQuery::Unordered(children) => max_term_children(children),
            SpanQuery::Or(children) => max_term_children(children),
            SpanQuery::MaxGaps { inner, .. } => inner.max_term_index(),
            SpanQuery::GapsInRange { inner, .. } => inner.max_term_index(),
            SpanQuery::MaxWidth { inner, .. } => inner.max_term_index(),
            SpanQuery::WithinPositions { inner, .. } => inner.max_term_index(),
            SpanQuery::Containing { big, little } => max_option(big.max_term_index(), little.max_term_index()),
            SpanQuery::ContainedBy { little, big } => max_option(little.max_term_index(), big.max_term_index()),
            SpanQuery::NotContaining { big, little } => max_option(big.max_term_index(), little.max_term_index()),
            SpanQuery::NotContainedBy { little, big } => max_option(little.max_term_index(), big.max_term_index()),
            SpanQuery::Overlapping { a, b } => max_option(a.max_term_index(), b.max_term_index()),
            SpanQuery::NonOverlapping { a, b } => max_option(a.max_term_index(), b.max_term_index()),
            SpanQuery::Before { a, b } => max_option(a.max_term_index(), b.max_term_index()),
            SpanQuery::After { a, b } => max_option(a.max_term_index(), b.max_term_index()),
        }
    }

    /// Number of distinct term indices needed (largest index + 1, or 0 if no terms).
    pub fn num_terms(&self) -> (r: usize)
        requires
            spec_num_terms(self@) <= usize::MAX,
        ensures
            r == spec_num_terms(self@),
    {
        match self.max_term_index() {
            Some(i) => i + 1,
            None => 0,
        }
    }

    /// Validate the query tree against the expected number of terms.
    pub fn validate(&self, num_terms: usize) -> (r: Result<(), SpanError>)
        ensures
            r == validation_result(self@, num_terms),
            r is Ok <==> query_valid(self@, num_terms),
        decreases *self,
    {
        proof {
            lemma_first_error_iff_invalid(self@, num_terms);
        }
        match self {
            SpanQuery::Empty => Ok(()),
            SpanQuery::Term(i) => {
                if *i >= num_terms {
                    Err(SpanError::TermIndexOutOfRange { index: *i, num_terms })
                } else {
                    Ok(())
                }
            },
            SpanQuery::Ordered(children) | SpanQuery::Unordered(children) => {
                proof { lemma_trees_of_index(children@); }
                if children.len() < 2 {
                    Err(SpanError::TooFewChildren { min: 2, got: children.len() })
                } else {
                    validate_children(children, num_terms)
                }
            },
            SpanQuery::Or(children) => {
                proof { lemma_trees_of_index(children@); }
                if children.len() == 0 {
                    Err(SpanError::EmptyQuery)
                } else {
                    validate_children(children, num_terms)
                }
            },
            SpanQuery::MaxGaps { inner, .. } => inner.validate(num_terms),
            SpanQuery::GapsInRange { inner, .. } => inner.validate(num_terms),
            SpanQuery::MaxWidth { inner, .. } => inner.validate(num_terms),
            SpanQuery::WithinPositions { inner, .. } => inner.validate(num_terms),
            SpanQuery::Containing { big: x, little: y }
            | SpanQuery::ContainedBy { little: x, big: y }
            | SpanQuery::NotContaining { big: x, little: y }
            | SpanQuery::NotContainedBy { little: x, big: y }
            | SpanQuery::Overlapping { a: x, b: y }
            | SpanQuery::NonOverlapping { a: x, b: y }
            | SpanQuery::Before { a: x, b: y }
            | SpanQuery::After { a: x, b: y } => {
                let r = x.validate(num_terms);
                if r.is_err() {
                    return r;
                }
                y.validate(num_terms)
            },
        }
    }

    /// A structurally identical copy of this query.
    pub fn deep_clone(&self) -> (r: SpanQuery)
        ensures
            r@ == self@,
        decreases *self,
    {
        match self {
            SpanQuery::Empty => SpanQuery::Empty,
            SpanQuery::Term(i) => SpanQuery::Term(*i),
            SpanQuery::Ordered(children) => SpanQuery::Ordered(clone_children(children)),
            SpanQuery::Unordered(children) => SpanQuery::Unordered(clone_children(children)),
            SpanQuery::Or(children) => SpanQuery::Or(clone_children(children)),
            SpanQuery::MaxGaps { max_gaps, inner } => SpanQuery::MaxGaps {
                max_gaps: *max_gaps,
                inner: Box::new(inner.deep_clone()),
            },
            SpanQuery::GapsInRange { min_gaps, max_gaps, inner } => SpanQuery::GapsInRange {
                min_gaps: *min_gaps,
                max_gaps: *max_gaps,
                inner: Box::new(inner.deep_clone()),
            },
            SpanQuery::MaxWidth { max_width, inner } => SpanQuery::MaxWidth {
                max_width: *max_width,
                inner: Box::new(inner.deep_clone()),
            },
            SpanQuery::WithinPositions { inner, lo, hi } => SpanQuery::WithinPositions {
                inner: Box::new(inner.deep_clone()),
                lo: *lo,
                hi: *hi,
            },
            SpanQuery::Containing { big, little } => SpanQuery::Containing {
                big: Box::new(big.deep_clone()),
                little: Box::new(little.deep_clone()),
            },
            SpanQuery::ContainedBy { little, big } => SpanQuery::ContainedBy {
                little: Box::new(little.deep_clone()),
                big: Box::new(big.deep_clone()),
            },
            SpanQuery::NotContaining { big, little } => SpanQuery::NotContaining {
                big: Box::new(big.deep_clone()),
                little: Box::new(little.deep_clone()),
            },
            SpanQuery::NotContainedBy { little, big } => SpanQuery::NotContainedBy {
                little: Box::new(little.deep_clone()),
                big: Box::new(big.deep_clone()),
            },
            SpanQuery::Overlapping { a, b } => SpanQuery::Overlapping {
                a: Box::new(a.deep_clone()),
                b: Box::new(b.deep_clone()),
            },
            SpanQuery::NonOverlapping { a, b } => SpanQuery::NonOverlapping {
                a: Box::new(a.deep_clone()),
                b: Box::new(b.deep_clone()),
            },
            SpanQuery::Before { a, b } => SpanQuery::Before {
                a: Box::new(a.deep_clone()),
                b: Box::new(b.deep_clone()),
            },
            SpanQuery::After { a, b } => SpanQuery::After {
                a: Box::new(a.deep_clone()),
                b: Box::new(b.deep_clone()),
            },
        }
    }
}

/// A structurally identical copy of a list of queries.
pub fn clone_children(children: &Vec<SpanQuery>) -> (r: Vec<SpanQuery>)
    ensures
        trees_of(r@) == trees_of(children@),
    decreases children@,
{
    let mut out: Vec<SpanQuery> = Vec::new();
    let mut i: usize = 0;
    while i < children.len()
        invariant
            i <= children@.len(),
            trees_of(out@) == trees_of(children@.take(i as int)),
        decreases children@.len() - i,
    {
        let ghost before = out@;
        out.push(children[i].deep_clone());
        proof {
            assert(out@.drop_last() == before);
            lemma_trees_of_take(children@, i as int);
        }
        i += 1;
    }
    assert(children@.take(children@.len() as int) == children@);
    out
}

impl SpanQuery {
    /// Whether two queries are the same operator tree.
    pub fn same_query(&self, other: &SpanQuery) -> (r: bool)
        ensures
            r == (self@ == other@),
        decreases *self,
    {
        match (self, other) {
            (SpanQuery::Empty, SpanQuery::Empty) => true,
            (SpanQuery::Term(i), SpanQuery::Term(j)) => *i == *j,
            (SpanQuery::Ordered(x), SpanQuery::Ordered(y)) => same_children(x, y),
            (SpanQuery::Unordered(x), SpanQuery::Unordered(y)) => same_children(x, y),
            (SpanQuery::Or(x), SpanQuery::Or(y)) => same_children(x, y),
            (SpanQuery::MaxGaps { max_gaps: g, inner: x }, SpanQuery::MaxGaps { max_gaps: h, inner: y }) =>
                *g == *h && x.same_query(y),
            (
                SpanQuery::GapsInRange { min_gaps: a, max_gaps: g, inner: x },
                SpanQuery::GapsInRange { min_gaps: b, max_gaps: h, inner: y },
            ) => *a == *b && *g == *h && x.same_query(y),
            (SpanQuery::MaxWidth { max_width: w, inner: x }, SpanQuery::MaxWidth { max_width: v, inner: y }) =>
                *w == *v && x.same_query(y),
            (
                SpanQuery::WithinPositions { inner: x, lo: a, hi: b },
                SpanQuery::WithinPositions { inner: y, lo: c, hi: d },
            ) => *a == *c && *b == *d && x.same_query(y),
            (SpanQuery::Containing { big: x1, little: x2 }, SpanQuery::Containing { big: y1, little: y2 }) =>
                x1.same_query(y1) && x2.same_query(y2),
            (SpanQuery::ContainedBy { little: x1, big: x2 }, SpanQuery::ContainedBy { little: y1, big: y2 }) =>
                x1.same_query(y1) && x2.same_query(y2),
            (SpanQuery::NotContaining { big: x1, little: x2 }, SpanQuery::NotContaining { big: y1, little: y2 }) =>
                x1.same_query(y1) && x2.same_query(y2),
            (SpanQuery::NotContainedBy { little: x1, big: x2 }, SpanQuery::NotContainedBy { little: y1, big: y2 }) =>
                x1.same_query(y1) && x2.same_query(y2),
            (SpanQuery::Overlapping { a: x1, b: x2 }, SpanQuery::Overlapping { a: y1, b: y2 }) =>
                x1.same_query(y1) && x2.same_query(y2),
            (SpanQuery::NonOverlapping { a: x1, b: x2 }, SpanQuery::NonOverlapping { a: y1, b: y2 }) =>
                x1.same_query(y1) && x2.same_query(y2),
            (SpanQuery::Before { a: x1, b: x2 }, SpanQuery::Before { a: y1, b: y2 }) =>
                x1.same_query(y1) && x2.same_query(y2),
            (SpanQuery::After { a: x1, b: x2 }, SpanQuery::After { a: y1, b: y2 }) =>
                x1.same_query(y1) && x2.same_query(y2),
            _ => false,
        }
    }
}

/// Whether two lists of queries hold the same operator trees, in order.
pub fn same_children(a: &Vec<SpanQuery>, b: &Vec<SpanQuery>) -> (r: bool)
    ensures
        r == (trees_of(a@) == trees_of(b@)),
    decreases a@,
{
    proof {
        lemma_trees_of_index(a@);
        lemma_trees_of_index(b@);
    }
    if a.len() != b.len() {
        return false;
    }
    let mut i: usize = 0;
    while i < a.len()
        invariant
            i <= a@.len(),
            a@.len() == b@.len(),
            trees_of(a@).len() == a@.len(),
            trees_of(b@).len() == b@.len(),
            forall|k: int| 0 <= k < a@.len() ==> #[trigger] trees_of(a@)[k] == tree_of(a@[k]),
            forall|k: int| 0 <= k < b@.len() ==> #[trigger] trees_of(b@)[k] == tree_of(b@[k]),
            forall|k: int| 0 <= k < i ==> tree_of(#[trigger] a@[k]) == tree_of(b@[k]),
        decreases a@.len() - i,
    {
        if !a[i].same_query(&b[i]) {
            proof {
                assert(trees_of(a@)[i as int] != trees_of(b@)[i as int]);
            }
            return false;
        }
        i += 1;
    }
    proof {
        assert(trees_of(a@) =~= trees_of(b@)) by {
            assert forall|k: int| 0 <= k < a@.len() implies trees_of(a@)[k] == trees_of(b@)[k] by {
                assert(tree_of(a@[k]) == tree_of(b@[k]));
            }
        }
    }
    true
}

/// `Term` leaves for each index of `s`, in order.
pub open spec fn term_leaves(s: Seq<usize>) -> Seq<SpanTree> {
    s.map_values(|i: usize| SpanTree::Term(i))
}

/// The ordered phrase over `s` filtered to at most `max_gaps` gaps.
pub open spec fn phrase_tree(s: Seq<usize>, max_gaps: u32) -> SpanTree {
    SpanTree::MaxGaps { max_gaps, inner: Box::new(SpanTree::Ordered(term_leaves(s))) }
}

} // verus!
