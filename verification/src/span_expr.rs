//! The query-language runtime span tree: the span-query operators plus
//! `AT LEAST` and document-relative position filters, resolved into plain
//! span queries.
use vstd::prelude::*;
use crate::query::{SpanQuery, SpanTree, tree_of, trees_of, lemma_trees_of_take, lemma_trees_of_index};
use crate::position_filter::{SpanPositionFilter, spec_needs_doc_length, spec_resolve_window};

verus! {

/// Runtime span expression produced by the query-language front end.
#[derive(Debug, PartialEq)]
pub enum SpanExpr {
    /// Empty interval stream: matches nothing.
    Empty,
    Term(usize),
    Ordered(Vec<SpanExpr>),
    Unordered(Vec<SpanExpr>),
    Or(Vec<SpanExpr>),
    /// At least `min` of the children, in any order.
    AtLeast { min: u32, children: Vec<SpanExpr> },
    MaxGaps { max_gaps: u32, inner: Box<SpanExpr> },
    GapsInRange { min_gaps: u32, max_gaps: u32, inner: Box<SpanExpr> },
    MaxWidth { max_width: u32, inner: Box<SpanExpr> },
    WithinPositions { inner: Box<SpanExpr>, lo: u32, hi: u32 },
    /// Restrict `inner` to the window of a positional filter.
    PositionFilter { inner: Box<SpanExpr>, filter: SpanPositionFilter },
    Containing { big: Box<SpanExpr>, little: Box<SpanExpr> },
    ContainedBy { little: Box<SpanExpr>, big: Box<SpanExpr> },
    NotContaining { big: Box<SpanExpr>, little: Box<SpanExpr> },
    NotContainedBy { little: Box<SpanExpr>, big: Box<SpanExpr> },
    Overlapping { a: Box<SpanExpr>, b: Box<SpanExpr> },
    NonOverlapping { a: Box<SpanExpr>, b: Box<SpanExpr> },
    Before { a: Box<SpanExpr>, b: Box<SpanExpr> },
    After { a: Box<SpanExpr>, b: Box<SpanExpr> },
}

/// The mathematical model of a runtime span expression.
pub enum ExprTree {
    Empty,
    Term(usize),
    Ordered(Seq<ExprTree>),
    Unordered(Seq<ExprTree>),
    Or(Seq<ExprTree>),
    AtLeast { min: u32, children: Seq<ExprTree> },
    MaxGaps { max_gaps: u32, inner: Box<ExprTree> },
    GapsInRange { min_gaps: u32, max_gaps: u32, inner: Box<ExprTree> },
    MaxWidth { max_width: u32, inner: Box<ExprTree> },
    WithinPositions { inner: Box<ExprTree>, lo: u32, hi: u32 },
    PositionFilter { inner: Box<ExprTree>, filter: SpanPositionFilter },
    Containing { big: Box<ExprTree>, little: Box<ExprTree> },
    ContainedBy { little: Box<ExprTree>, big: Box<ExprTree> },
    NotContaining { big: Box<ExprTree>, little: Box<ExprTree> },
    NotContainedBy { little: Box<ExprTree>, big: Box<ExprTree> },
    Overlapping { a: Box<ExprTree>, b: Box<ExprTree> },
    NonOverlapping { a: Box<ExprTree>, b: Box<ExprTree> },
    Before { a: Box<ExprTree>, b: Box<ExprTree> },
    After { a: Box<ExprTree>, b: Box<ExprTree> },
}

/// The model of an expression.
pub open spec fn expr_of(e: SpanExpr) -> ExprTree
    decreases e,
{
    match e {
        SpanExpr::Empty => ExprTree::Empty,
        SpanExpr::Term(i) => ExprTree::Term(i),
        SpanExpr::Ordered(ch) => ExprTree::Ordered(exprs_of(ch@)),
        SpanExpr::Unordered(ch) => ExprTree::Unordered(exprs_of(ch@)),
        SpanExpr::Or(ch) => ExprTree::Or(exprs_of(ch@)),
        SpanExpr::AtLeast { min, children } => ExprTree::AtLeast { min, children: exprs_of(children@) },
        SpanExpr::MaxGaps { max_gaps, inner } => ExprTree::MaxGaps { max_gaps, inner: Box::new(expr_of(*inner)) },
        SpanExpr::GapsInRange { min_gaps, max_gaps, inner } => ExprTree::GapsInRange { min_gaps, max_gaps, inner: Box::new(expr_of(*inner)) },
        SpanExpr::MaxWidth { max_width, inner } => ExprTree::MaxWidth { max_width, inner: Box::new(expr_of(*inner)) },
        SpanExpr::WithinPositions { lo, hi, inner } => ExprTree::WithinPositions { lo, hi, inner: Box::new(expr_of(*inner)) },
        SpanExpr::PositionFilter { inner, filter } => ExprTree::PositionFilter { inner: Box::new(expr_of(*inner)), filter },
        SpanExpr::Containing { big, little } => ExprTree::Containing { big: Box::new(expr_of(*big)), little: Box::new(expr_of(*little)) },
        SpanExpr::ContainedBy { little, big } => ExprTree::ContainedBy { little: Box::new(expr_of(*little)), big: Box::new(expr_of(*big)) },
        SpanExpr::NotContaining { big, little } => ExprTree::NotContaining { big: Box::new(expr_of(*big)), little: Box::new(expr_of(*little)) },
        SpanExpr::NotContainedBy { little, big } => ExprTree::NotContainedBy { little: Box::new(expr_of(*little)), big: Box::new(expr_of(*big)) },
        SpanExpr::Overlapping { a, b } => ExprTree::Overlapping { a: Box::new(expr_of(*a)), b: Box::new(expr_of(*b)) },
        SpanExpr::NonOverlapping { a, b } => ExprTree::NonOverlapping { a: Box::new(expr_of(*a)), b: Box::new(expr_of(*b)) },
        SpanExpr::Before { a, b } => ExprTree::Before { a: Box::new(expr_of(*a)), b: Box::new(expr_of(*b)) },
        SpanExpr::After { a, b } => ExprTree::After { a: Box::new(expr_of(*a)), b: Box::new(expr_of(*b)) },
    }
}

/// The models of a list of expressions, in order.
pub open spec fn exprs_of(s: Seq<SpanExpr>) -> Seq<ExprTree>
    decreases s,
{
    if s.len() == 0 {
        Seq::empty()
    } else {
        exprs_of(s.drop_last()).push(expr_of(s.last()))
    }
}

impl View for SpanExpr {
    type V = ExprTree;

    open spec fn view(&self) -> ExprTree {
        expr_of(*self)
    }
}

/// The model of a one-longer prefix extends the model of the prefix.
pub proof fn lemma_exprs_of_take(s: Seq<SpanExpr>, i: int)
    requires
        0 <= i < s.len(),
    ensures
        exprs_of(s.take(i + 1)) == exprs_of(s.take(i)).push(expr_of(s[i])),
        exprs_of(s.take(i + 1)).drop_last() == exprs_of(s.take(i)),
{
    assert(s.take(i + 1).drop_last() == s.take(i));
    assert(exprs_of(s.take(i)).push(expr_of(s[i])).drop_last() == exprs_of(s.take(i)));
}

/// The models of a list keep its length.
pub proof fn lemma_exprs_of_len(s: Seq<SpanExpr>)
    ensures
        exprs_of(s).len() == s.len(),
    decreases s,
{
    if s.len() > 0 {
        lemma_exprs_of_len(s.drop_last());
    }
}

/// Some node of the expression has a window that depends on the document length.
pub open spec fn spec_needs_len(e: ExprTree) -> bool
    decreases e,
{
    match e {
        ExprTree::Empty => false,
        ExprTree::Term(_) => false,
        ExprTree::Ordered(ch) => any_needs_len(ch),
        ExprTree::Unordered(ch) => any_needs_len(ch),
        ExprTree::Or(ch) => any_needs_len(ch),
        ExprTree::AtLeast { children, .. } => any_needs_len(children),
        ExprTree::MaxGaps { inner, .. } => spec_needs_len(*inner),
        ExprTree::GapsInRange { inner, .. } => spec_needs_len(*inner),
        ExprTree::MaxWidth { inner, .. } => spec_needs_len(*inner),
        ExprTree::WithinPositions { inner, .. } => spec_needs_len(*inner),
        ExprTree::PositionFilter { inner, filter } => spec_needs_doc_length(filter) || spec_needs_len(*inner),
        ExprTree::Containing { big, little } => spec_needs_len(*big) || spec_needs_len(*little),
        ExprTree::ContainedBy { little, big } => spec_needs_len(*little) || spec_needs_len(*big),
        ExprTree::NotContaining { big, little } => spec_needs_len(*big) || spec_needs_len(*little),
        ExprTree::NotContainedBy { little, big } => spec_needs_len(*little) || spec_needs_len(*big),
        ExprTree::Overlapping { a, b } => spec_needs_len(*a) || spec_needs_len(*b),
        ExprTree::NonOverlapping { a, b } => spec_needs_len(*a) || spec_needs_len(*b),
        ExprTree::Before { a, b } => spec_needs_len(*a) || spec_needs_len(*b),
        ExprTree::After { a, b } => spec_needs_len(*a) || spec_needs_len(*b),
    }
}

/// Some expression of `s` needs the document length.
pub open spec fn any_needs_len(s: Seq<ExprTree>) -> bool
    decreases s,
{
    if s.len() == 0 {
        false
    } else {
        any_needs_len(s.drop_last()) || spec_needs_len(s.last())
    }
}

/// Every term of the expression must occur for it to match.
pub open spec fn spec_all_required(e: ExprTree) -> bool
    decreases e,
{
    match e {
        ExprTree::Empty => false,
        ExprTree::Term(_) => true,
        ExprTree::Ordered(ch) => all_required(ch),
        ExprTree::Unordered(ch) => all_required(ch),
        ExprTree::Or(_) => false,
        ExprTree::AtLeast { min, children } => min as int == children.len() && all_required(children),
        ExprTree::MaxGaps { inner, .. } => spec_all_required(*inner),
        ExprTree::GapsInRange { inner, .. } => spec_all_required(*inner),
        ExprTree::MaxWidth { inner, .. } => spec_all_required(*inner),
        ExprTree::WithinPositions { inner, .. } => spec_all_required(*inner),
        ExprTree::PositionFilter { inner, .. } => spec_all_required(*inner),
        ExprTree::NotContaining { .. } => false,
        ExprTree::NotContainedBy { .. } => false,
        ExprTree::NonOverlapping { .. } => false,
        ExprTree::Containing { big, little } => spec_all_required(*big) && spec_all_required(*little),
        ExprTree::ContainedBy { little, big } => spec_all_required(*little) && spec_all_required(*big),
        ExprTree::Overlapping { a, b } => spec_all_required(*a) && spec_all_required(*b),
        ExprTree::Before { a, b } => spec_all_required(*a) && spec_all_required(*b),
        ExprTree::After { a, b } => spec_all_required(*a) && spec_all_required(*b),
    }
}

/// Every expression of `s` requires all its terms.
pub open spec fn all_required(s: Seq<ExprTree>) -> bool
    decreases s,
{
    if s.len() == 0 {
        true
    } else {
        all_required(s.drop_last()) && spec_all_required(s.last())
    }
}

/// The document-independent span query an expression lowers to, if any:
/// absent when it holds `AT LEAST` or a document-relative filter, or a
/// filter whose window is empty.
pub open spec fn spec_fast_body(e: ExprTree) -> Option<SpanTree>
    decreases e,
{
    match e {
        ExprTree::Empty => Some(SpanTree::Empty),
        ExprTree::Term(i) => Some(SpanTree::Term(i)),
        ExprTree::Ordered(ch) => match fast_seq(ch) {
            Some(v) => Some(SpanTree::Ordered(v)),
            None => None,
        },
        ExprTree::Unordered(ch) => match fast_seq(ch) {
            Some(v) => Some(SpanTree::Unordered(v)),
            None => None,
        },
        ExprTree::Or(ch) => match fast_seq(ch) {
            Some(v) => Some(SpanTree::Or(v)),
            None => None,
        },
        ExprTree::AtLeast { .. } => None,
        ExprTree::MaxGaps { max_gaps, inner } => match spec_fast_body(*inner) {
            Some(t) => Some(SpanTree::MaxGaps { max_gaps, inner: Box::new(t) }),
            None => None,
        },
        ExprTree::GapsInRange { min_gaps, max_gaps, inner } => match spec_fast_body(*inner) {
            Some(t) => Some(SpanTree::GapsInRange { min_gaps, max_gaps, inner: Box::new(t) }),
            None => None,
        },
        ExprTree::MaxWidth { max_width, inner } => match spec_fast_body(*inner) {
            Some(t) => Some(SpanTree::MaxWidth { max_width, inner: Box::new(t) }),
            None => None,
        },
        ExprTree::WithinPositions { lo, hi, inner } => match spec_fast_body(*inner) {
            Some(t) => Some(SpanTree::WithinPositions { lo, hi, inner: Box::new(t) }),
            None => None,
        },
        ExprTree::PositionFilter { inner, filter } => if spec_needs_doc_length(filter) {
            None
        } else {
            match (spec_resolve_window(filter, 0), spec_fast_body(*inner)) {
                (Some(w), Some(t)) => Some(SpanTree::WithinPositions { inner: Box::new(t), lo: w.lo, hi: w.hi }),
                _ => None,
            }
        },
        ExprTree::Containing { big, little } => match (spec_fast_body(*big), spec_fast_body(*little)) {
            (Some(p), Some(q)) => Some(SpanTree::Containing { big: Box::new(p), little: Box::new(q) }),
            _ => None,
        },
        ExprTree::ContainedBy { little, big } => match (spec_fast_body(*little), spec_fast_body(*big)) {
            (Some(p), Some(q)) => Some(SpanTree::ContainedBy { little: Box::new(p), big: Box::new(q) }),
            _ => None,
        },
        ExprTree::NotContaining { big, little } => match (spec_fast_body(*big), spec_fast_body(*little)) {
            (Some(p), Some(q)) => Some(SpanTree::NotContaining { big: Box::new(p), little: Box::new(q) }),
            _ => None,
        },
        ExprTree::NotContainedBy { little, big } => match (spec_fast_body(*little), spec_fast_body(*big)) {
            (Some(p), Some(q)) => Some(SpanTree::NotContainedBy { little: Box::new(p), big: Box::new(q) }),
            _ => None,
        },
        ExprTree::Overlapping { a, b } => match (spec_fast_body(*a), spec_fast_body(*b)) {
            (Some(p), Some(q)) => Some(SpanTree::Overlapping { a: Box::new(p), b: Box::new(q) }),
            _ => None,
        },
        ExprTree::NonOverlapping { a, b } => match (spec_fast_body(*a), spec_fast_body(*b)) {
            (Some(p), Some(q)) => Some(SpanTree::NonOverlapping { a: Box::new(p), b: Box::new(q) }),
            _ => None,
        },
        ExprTree::Before { a, b } => match (spec_fast_body(*a), spec_fast_body(*b)) {
            (Some(p), Some(q)) => Some(SpanTree::Before { a: Box::new(p), b: Box::new(q) }),
            _ => None,
        },
        ExprTree::After { a, b } => match (spec_fast_body(*a), spec_fast_body(*b)) {
            (Some(p), Some(q)) => Some(SpanTree::After { a: Box::new(p), b: Box::new(q) }),
            _ => None,
        },
    }
}

/// The fast-path lowering of every expression of `s`, if all have one.
pub open spec fn fast_seq(s: Seq<ExprTree>) -> Option<Seq<SpanTree>>
    decreases s,
{
    if s.len() == 0 {
        Some(Seq::empty())
    } else {
        match (fast_seq(s.drop_last()), spec_fast_body(s.last())) {
            (Some(v), Some(t)) => Some(v.push(t)),
            _ => None,
        }
    }
}

/// The fast-path lowering of a whole expression: a top-level position
/// filter is handed back separately instead of being lowered.
pub open spec fn spec_fast_root(e: ExprTree) -> Option<(SpanTree, Option<SpanPositionFilter>)> {
    match e {
        ExprTree::PositionFilter { inner, filter } => match spec_fast_body(*inner) {
            Some(t) => Some((t, Some(filter))),
            None => None,
        },
        _ => match spec_fast_body(e) {
            Some(t) => Some((t, None)),
            None => None,
        },
    }
}

/// The trees of `s` other than `Empty`, in order.
pub open spec fn drop_empty(s: Seq<SpanTree>) -> Seq<SpanTree>
    decreases s,
{
    if s.len() == 0 {
        Seq::empty()
    } else if s.last() is Empty {
        drop_empty(s.drop_last())
    } else {
        drop_empty(s.drop_last()).push(s.last())
    }
}

/// `Unordered(prefix + c)` for every `k`-element subsequence `c` of `s`,
/// in lexicographic order of the chosen positions.
pub open spec fn unordered_combos(prefix: Seq<SpanTree>, s: Seq<SpanTree>, k: nat) -> Seq<SpanTree>
    decreases s.len(), k,
{
    if k == 0 {
        seq![SpanTree::Unordered(prefix)]
    } else if s.len() < k {
        Seq::empty()
    } else {
        unordered_combos(prefix.push(s[0]), s.drop_first(), (k - 1) as nat)
            + unordered_combos(prefix, s.drop_first(), k)
    }
}

/// The query for "at least `min` of `children`".
pub open spec fn spec_at_least(min: u32, children: Seq<SpanTree>) -> SpanTree {
    let n = children.len();
    if min == 0 || min > n || n == 0 {
        SpanTree::Empty
    } else if min == 1 {
        if n == 1 { children[0] } else { SpanTree::Or(children) }
    } else if min == n {
        if n == 1 { children[0] } else { SpanTree::Unordered(children) }
    } else {
        let combos = unordered_combos(Seq::empty(), children, min as nat);
        if combos.len() == 0 {
            SpanTree::Empty
        } else if combos.len() == 1 {
            combos[0]
        } else {
            SpanTree::Or(combos)
        }
    }
}

/// The span query an expression denotes in a document of `len` words.
pub open spec fn spec_resolve(e: ExprTree, len: u32) -> SpanTree
    decreases e,
{
    match e {
        ExprTree::Empty => SpanTree::Empty,
        ExprTree::Term(i) => SpanTree::Term(i),
        ExprTree::Ordered(ch) => SpanTree::Ordered(resolve_seq(ch, len)),
        ExprTree::Unordered(ch) => SpanTree::Unordered(resolve_seq(ch, len)),
        ExprTree::Or(ch) => {
            let kept = drop_empty(resolve_seq(ch, len));
            if kept.len() == 0 {
                SpanTree::Empty
            } else if kept.len() == 1 {
                kept[0]
            } else {
                SpanTree::Or(kept)
            }
        },
        ExprTree::AtLeast { min, children } => spec_at_least(min, drop_empty(resolve_seq(children, len))),
        ExprTree::MaxGaps { max_gaps, inner } => SpanTree::MaxGaps { max_gaps, inner: Box::new(spec_resolve(*inner, len)) },
        ExprTree::GapsInRange { min_gaps, max_gaps, inner } => SpanTree::GapsInRange { min_gaps, max_gaps, inner: Box::new(spec_resolve(*inner, len)) },
        ExprTree::MaxWidth { max_width, inner } => SpanTree::MaxWidth { max_width, inner: Box::new(spec_resolve(*inner, len)) },
        ExprTree::WithinPositions { lo, hi, inner } => SpanTree::WithinPositions { lo, hi, inner: Box::new(spec_resolve(*inner, len)) },
        ExprTree::PositionFilter { inner, filter } => match spec_resolve_window(filter, len) {
            Some(w) => SpanTree::WithinPositions { inner: Box::new(spec_resolve(*inner, len)), lo: w.lo, hi: w.hi },
            None => SpanTree::Empty,
        },
        ExprTree::Containing { big, little } => SpanTree::Containing { big: Box::new(spec_resolve(*big, len)), little: Box::new(spec_resolve(*little, len)) },
        ExprTree::ContainedBy { little, big } => SpanTree::ContainedBy { little: Box::new(spec_resolve(*little, len)), big: Box::new(spec_resolve(*big, len)) },
        ExprTree::NotContaining { big, little } => SpanTree::NotContaining { big: Box::new(spec_resolve(*big, len)), little: Box::new(spec_resolve(*little, len)) },
        ExprTree::NotContainedBy { little, big } => SpanTree::NotContainedBy { little: Box::new(spec_resolve(*little, len)), big: Box::new(spec_resolve(*big, len)) },
        ExprTree::Overlapping { a, b } => SpanTree::Overlapping { a: Box::new(spec_resolve(*a, len)), b: Box::new(spec_resolve(*b, len)) },
        ExprTree::NonOverlapping { a, b } => SpanTree::NonOverlapping { a: Box::new(spec_resolve(*a, len)), b: Box::new(spec_resolve(*b, len)) },
        ExprTree::Before { a, b } => SpanTree::Before { a: Box::new(spec_resolve(*a, len)), b: Box::new(spec_resolve(*b, len)) },
        ExprTree::After { a, b } => SpanTree::After { a: Box::new(spec_resolve(*a, len)), b: Box::new(spec_resolve(*b, len)) },
    }
}

/// The resolution of every expression of `s`, in order.
pub open spec fn resolve_seq(s: Seq<ExprTree>, len: u32) -> Seq<SpanTree>
    decreases s,
{
    if s.len() == 0 {
        Seq::empty()
    } else {
        resolve_seq(s.drop_last(), len).push(spec_resolve(s.last(), len))
    }
}

/// The model of an optional query.
pub open spec fn opt_tree(r: Option<SpanQuery>) -> Option<SpanTree> {
    match r {
        Some(q) => Some(q@),
        None => None,
    }
}

fn any_child_needs_len(children: &Vec<SpanExpr>) -> (r: bool)
    ensures
        r == any_needs_len(exprs_of(children@)),
    decreases children@,
{
    let mut i: usize = 0;
    while i < children.len()
        invariant
            i <= children@.len(),
            !any_needs_len(exprs_of(children@.take(i as int))),
        decreases children@.len() - i,
    {
        proof { lemma_exprs_of_take(children@, i as int); }
        if children[i].needs_doc_length() {
            proof { lemma_any_needs_len_extends(children@, i as int + 1); }
            return true;
        }
        i += 1;
    }
    assert(children@.take(children@.len() as int) == children@);
    false
}

proof fn lemma_any_needs_len_extends(s: Seq<SpanExpr>, k: int)
    requires
        0 < k <= s.len(),
        any_needs_len(exprs_of(s.take(k))),
    ensures
        any_needs_len(exprs_of(s)),
    decreases s.len() - k,
{
    if k < s.len() {
        lemma_exprs_of_take(s, k);
        lemma_any_needs_len_extends(s, k + 1);
    } else {
        assert(s.take(k) == s);
    }
}

fn all_children_required(children: &Vec<SpanExpr>) -> (r: bool)
    ensures
        r == all_required(exprs_of(children@)),
    decreases children@,
{
    let mut i: usize = 0;
    while i < children.len()
        invariant
            i <= children@.len(),
            all_required(exprs_of(children@.take(i as int))),
        decreases children@.len() - i,
    {
        proof { lemma_exprs_of_take(children@, i as int); }
        if !children[i].all_terms_required() {
            proof { lemma_not_all_required_extends(children@, i as int + 1); }
            return false;
        }
        i += 1;
    }
    assert(children@.take(children@.len() as int) == children@);
    true
}

proof fn lemma_not_all_required_extends(s: Seq<SpanExpr>, k: int)
    requires
        0 < k <= s.len(),
        !all_required(exprs_of(s.take(k))),
    ensures
        !all_required(exprs_of(s)),
    decreases s.len() - k,
{
    if k < s.len() {
        lemma_exprs_of_take(s, k);
        lemma_not_all_required_extends(s, k + 1);
    } else {
        assert(s.take(k) == s);
    }
}

fn fast_children(children: &Vec<SpanExpr>) -> (r: Option<Vec<SpanQuery>>)
    ensures
        match r {
            Some(v) => fast_seq(exprs_of(children@)) == Some(trees_of(v@)),
            None => fast_seq(exprs_of(children@)) is None,
        },
    decreases children@,
{
    let mut out: Vec<SpanQuery> = Vec::new();
    let mut i: usize = 0;
    while i < children.len()
        invariant
            i <= children@.len(),
            fast_seq(exprs_of(children@.take(i as int))) == Some(trees_of(out@)),
        decreases children@.len() - i,
    {
        proof { lemma_exprs_of_take(children@, i as int); }
        match children[i].to_fast_path_body() {
            Some(q) => {
                let ghost before = out@;
                out.push(q);
                proof {
                    assert(out@.drop_last() == before);
                }
            },
            None => {
                proof { lemma_fast_seq_none_extends(children@, i as int + 1); }
                return None;
            },
        }
        i += 1;
    }
    assert(children@.take(children@.len() as int) == children@);
    Some(out)
}

proof fn lemma_fast_seq_none_extends(s: Seq<SpanExpr>, k: int)
    requires
        0 < k <= s.len(),
        fast_seq(exprs_of(s.take(k))) is None,
    ensures
        fast_seq(exprs_of(s)) is None,
    decreases s.len() - k,
{
    if k < s.len() {
        lemma_exprs_of_take(s, k);
        lemma_fast_seq_none_extends(s, k + 1);
    } else {
        assert(s.take(k) == s);
    }
}

fn resolve_children(children: &Vec<SpanExpr>, len: u32) -> (r: Vec<SpanQuery>)
    ensures
        trees_of(r@) == resolve_seq(exprs_of(children@), len),
    decreases children@,
{
    let mut out: Vec<SpanQuery> = Vec::new();
    let mut i: usize = 0;
    while i < children.len()
        invariant
            i <= children@.len(),
            trees_of(out@) == resolve_seq(exprs_of(children@.take(i as int)), len),
        decreases children@.len() - i,
    {
        proof { lemma_exprs_of_take(children@, i as int); }
        let q = children[i].resolve(len);
        let ghost before = out@;
        out.push(q);
        proof {
            assert(out@.drop_last() == before);
        }
        i += 1;
    }
    assert(children@.take(children@.len() as int) == children@);
    out
}

/// The children that are not `Empty`, in order.
fn nonempty_children(children: &Vec<SpanQuery>) -> (r: Vec<SpanQuery>)
    ensures
        trees_of(r@) == drop_empty(trees_of(children@)),
{
    let mut out: Vec<SpanQuery> = Vec::new();
    let mut i: usize = 0;
    while i < children.len()
        invariant
            i <= children@.len(),
            trees_of(out@) == drop_empty(trees_of(children@.take(i as int))),
        decreases children@.len() - i,
    {
        proof {
            lemma_trees_of_take(children@, i as int);
            let t = trees_of(children@.take(i as int));
            assert(t.push(tree_of(children@[i as int])).drop_last() == t);
        }
        let is_empty = match &children[i] {
            SpanQuery::Empty => true,
            _ => false,
        };
        if !is_empty {
            let ghost before = out@;
            out.push(children[i].deep_clone());
            proof {
                assert(out@.drop_last() == before);
            }
        }
        i += 1;
    }
    assert(children@.take(children@.len() as int) == children@);
    out
}

/// Appends `Unordered(current + c)` for every `k`-element subsequence `c`
/// of `children[start..]`, in lexicographic order.
fn collect_combinations(
    children: &Vec<SpanQuery>,
    k: usize,
    start: usize,
    current: &mut Vec<SpanQuery>,
    out: &mut Vec<SpanQuery>,
)
    requires
        start <= children@.len(),
    ensures
        final(current)@ == old(current)@,
        trees_of(final(out)@) == trees_of(old(out)@) + unordered_combos(
            trees_of(old(current)@),
            trees_of(children@).skip(start as int),
            k as nat,
        ),
    decreases children@.len() - start, k,
{
    let ghost rest = trees_of(children@).skip(start as int);
    proof { lemma_trees_of_index(children@); }
    if k == 0 {
        let ghost before = out@;
        let cl = clone_children(current);
        let u = SpanQuery::Unordered(cl);
        assert(u@ == SpanTree::Unordered(trees_of(current@)));
        out.push(u);
        proof {
            assert(out@.drop_last() == before);
            assert(trees_of(out@) == trees_of(before).push(SpanTree::Unordered(trees_of(current@))));
        }
        return;
    }
    if children.len() - start < k {
        assert(trees_of(out@) =~= trees_of(out@) + Seq::<SpanTree>::empty());
        return;
    }
    let ghost cur0 = current@;
    let ghost out0 = out@;
    current.push(children[start].deep_clone());
    proof {
        assert(current@.drop_last() == cur0);
        assert(trees_of(current@) == trees_of(cur0).push(rest[0]));
        assert(rest.drop_first() == trees_of(children@).skip(start + 1));
    }
    collect_combinations(children, k - 1, start + 1, current, out);
    let ghost out1 = out@;
    current.pop();
    assert(current@ == cur0);
    collect_combinations(children, k, start + 1, current, out);
    assert(trees_of(out@) =~= trees_of(out0) + unordered_combos(trees_of(cur0), rest, k as nat));
}

fn clone_children(children: &Vec<SpanQuery>) -> (r: Vec<SpanQuery>)
    ensures
        trees_of(r@) == trees_of(children@),
{
    crate::query::clone_children(children)
}

/// The query for "at least `min` of `children`": empty when impossible,
/// the disjunction for one, the conjunction for all, and otherwise the
/// disjunction of the unordered conjunctions of every `min`-subset.
fn at_least_query(min: u32, children: Vec<SpanQuery>) -> (r: SpanQuery)
    ensures
        r@ == spec_at_least(min, trees_of(children@)),
{
    proof { lemma_trees_of_index(children@); }
    let n = children.len();
    if min == 0 {
        return SpanQuery::Empty;
    }
    let m = min as usize;
    if m > n || n == 0 {
        return SpanQuery::Empty;
    }
    if m == 1 {
        if n == 1 {
            let mut children = children;
            return children.pop().unwrap();
        }
        return SpanQuery::Or(children);
    }
    if m == n {
        return SpanQuery::Unordered(children);
    }
    let mut combinations: Vec<SpanQuery> = Vec::new();
    let mut current: Vec<SpanQuery> = Vec::new();
    collect_combinations(&children, m, 0, &mut current, &mut combinations);
    proof {
        assert(trees_of(children@).skip(0) == trees_of(children@));
        assert(trees_of(Seq::<SpanQuery>::empty()) == Seq::<SpanTree>::empty());
        assert(trees_of(combinations@) =~= unordered_combos(Seq::empty(), trees_of(children@), m as nat));
        lemma_trees_of_index(combinations@);
    }
    if combinations.len() == 0 {
        SpanQuery::Empty
    } else if combinations.len() == 1 {
        combinations.pop().unwrap()
    } else {
        SpanQuery::Or(combinations)
    }
}

impl SpanExpr {
    /// Whether resolving this expression depends on the document length.
    pub fn needs_doc_length(&self) -> (r: bool)
        ensures
            r == spec_needs_len(self@),
        decreases *self,
    {
        match self {
            SpanExpr::Empty | SpanExpr::Term(_) => false,
            SpanExpr::Ordered(children) | SpanExpr::Unordered(children) | SpanExpr::Or(children) => {
                any_child_needs_len(children)
            },
            SpanExpr::AtLeast { children, .. } => any_child_needs_len(children),
            SpanExpr::MaxGaps { inner, .. }
            | SpanExpr::GapsInRange { inner, .. }
            | SpanExpr::MaxWidth { inner, .. }
            | SpanExpr::WithinPositions { inner, .. } => inner.needs_doc_length(),
            SpanExpr::PositionFilter { inner, filter } => filter.needs_doc_length() || inner.needs_doc_length(),
            SpanExpr::Containing { big, little } => big.needs_doc_length() || little.needs_doc_length(),
            SpanExpr::ContainedBy { little, big } => little.needs_doc_length() || big.needs_doc_length(),
            SpanExpr::NotContaining { big, little } => big.needs_doc_length() || little.needs_doc_length(),
            SpanExpr::NotContainedBy { little, big } => little.needs_doc_length() || big.needs_doc_length(),
            SpanExpr::Overlapping { a, b } => a.needs_doc_length() || b.needs_doc_length(),
            SpanExpr::NonOverlapping { a, b } => a.needs_doc_length() || b.needs_doc_length(),
            SpanExpr::Before { a, b } => a.needs_doc_length() || b.needs_doc_length(),
            SpanExpr::After { a, b } => a.needs_doc_length() || b.needs_doc_length(),
        }
    }

    /// Whether every term of the expression must occur for it to match.
    pub fn all_terms_required(&self) -> (r: bool)
        ensures
            r == spec_all_required(self@),
        decreases *self,
    {
        match self {
            SpanExpr::Empty => false,
            SpanExpr::Term(_) => true,
            SpanExpr::Ordered(children) | SpanExpr::Unordered(children) => all_children_required(children),
            SpanExpr::Or(_) => false,
            SpanExpr::AtLeast { min, children } => {
                proof { lemma_exprs_of_len(children@); }
                (*min as usize) == children.len() && all_children_required(children)
            },
            SpanExpr::MaxGaps { inner, .. }
            | SpanExpr::GapsInRange { inner, .. }
            | SpanExpr::MaxWidth { inner, .. }
            | SpanExpr::WithinPositions { inner, .. }
            | SpanExpr::PositionFilter { inner, .. } => inner.all_terms_required(),
            SpanExpr::NotContaining { .. } | SpanExpr::NotContainedBy { .. } | SpanExpr::NonOverlapping { .. } => false,
            SpanExpr::Containing { big, little } => big.all_terms_required() && little.all_terms_required(),
            SpanExpr::ContainedBy { little, big } => little.all_terms_required() && big.all_terms_required(),
            SpanExpr::Overlapping { a, b } => a.all_terms_required() && b.all_terms_required(),
            SpanExpr::Before { a, b } => a.all_terms_required() && b.all_terms_required(),
            SpanExpr::After { a, b } => a.all_terms_required() && b.all_terms_required(),
        }
    }

    /// The document-independent span query and the top-level position
    /// filter, when the expression needs no per-document resolution.
    pub fn to_fast_path_root(&self) -> (r: Option<(SpanQuery, Option<SpanPositionFilter>)>)
        ensures
            match r {
                Some((q, f)) => spec_fast_root(self@) == Some((q@, f)),
                None => spec_fast_root(self@) is None,
            },
    {
        match self {
            SpanExpr::PositionFilter { inner, filter } => match inner.to_fast_path_body() {
                Some(q) => Some((q, Some(*filter))),
                None => None,
            },
            _ => match self.to_fast_path_body() {
                Some(q) => Some((q, None)),
                None => None,
            },
        }
    }

    fn to_fast_path_body(&self) -> (r: Option<SpanQuery>)
        ensures
            opt_tree(r) == spec_fast_body(self@),
        decreases *self,
    {
        match self {
            SpanExpr::Empty => Some(SpanQuery::Empty),
            SpanExpr::Term(i) => Some(SpanQuery::Term(*i)),
            SpanExpr::Ordered(children) => match fast_children(children) {
                Some(v) => Some(SpanQuery::Ordered(v)),
                None => None,
            },
            SpanExpr::Unordered(children) => match fast_children(children) {
                Some(v) => Some(SpanQuery::Unordered(v)),
                None => None,
            },
            SpanExpr::Or(children) => match fast_children(children) {
                Some(v) => Some(SpanQuery::Or(v)),
                None => None,
            },
            SpanExpr::AtLeast { .. } => None,
            SpanExpr::MaxGaps { max_gaps, inner } => match inner.to_fast_path_body() {
                Some(t) => Some(SpanQuery::MaxGaps { max_gaps: *max_gaps, inner: Box::new(t) }),
                None => None,
            },
            SpanExpr::GapsInRange { min_gaps, max_gaps, inner } => match inner.to_fast_path_body() {
                Some(t) => Some(SpanQuery::GapsInRange { min_gaps: *min_gaps, max_gaps: *max_gaps, inner: Box::new(t) }),
                None => None,
            },
            SpanExpr::MaxWidth { max_width, inner } => match inner.to_fast_path_body() {
                Some(t) => Some(SpanQuery::MaxWidth { max_width: *max_width, inner: Box::new(t) }),
                None => None,
            },
            SpanExpr::WithinPositions { lo, hi, inner } => match inner.to_fast_path_body() {
                Some(t) => Some(SpanQuery::WithinPositions { lo: *lo, hi: *hi, inner: Box::new(t) }),
                None => None,
            },
            SpanExpr::PositionFilter { inner, filter } => {
                if filter.needs_doc_length() {
                    return None;
                }
                let window = match filter.resolve_window(0) {
                    Some(w) => w,
                    None => return None,
                };
                match inner.to_fast_path_body() {
                    Some(t) => Some(SpanQuery::WithinPositions { inner: Box::new(t), lo: window.lo, hi: window.hi }),
                    None => None,
                }
            },
            SpanExpr::Containing { big, little } => {
                let p = match big.to_fast_path_body() {
                    Some(p) => p,
                    None => return None,
                };
                match little.to_fast_path_body() {
                    Some(q) => Some(SpanQuery::Containing { big: Box::new(p), little: Box::new(q) }),
                    None => None,
                }
            },
            SpanExpr::ContainedBy { little, big } => {
                let p = match little.to_fast_path_body() {
                    Some(p) => p,
                    None => return None,
                };
                match big.to_fast_path_body() {
                    Some(q) => Some(SpanQuery::ContainedBy { little: Box::new(p), big: Box::new(q) }),
                    None => None,
                }
            },
            SpanExpr::NotContaining { big, little } => {
                let p = match big.to_fast_path_body() {
                    Some(p) => p,
                    None => return None,
                };
                match little.to_fast_path_body() {
                    Some(q) => Some(SpanQuery::NotContaining { big: Box::new(p), little: Box::new(q) }),
                    None => None,
                }
            },
            SpanExpr::NotContainedBy { little, big } => {
                let p = match little.to_fast_path_body() {
                    Some(p) => p,
                    None => return None,
                };
                match big.to_fast_path_body() {
                    Some(q) => Some(SpanQuery::NotContainedBy { little: Box::new(p), big: Box::new(q) }),
                    None => None,
                }
            },
            SpanExpr::Overlapping { a, b } => {
                let p = match a.to_fast_path_body() {
                    Some(p) => p,
                    None => return None,
                };
                match b.to_fast_path_body() {
                    Some(q) => Some(SpanQuery::Overlapping { a: Box::new(p), b: Box::new(q) }),
                    None => None,
                }
            },
            SpanExpr::NonOverlapping { a, b } => {
                let p = match a.to_fast_path_body() {
                    Some(p) => p,
                    None => return None,
                };
                match b.to_fast_path_body() {
                    Some(q) => Some(SpanQuery::NonOverlapping { a: Box::new(p), b: Box::new(q) }),
                    None => None,
                }
            },
            SpanExpr::Before { a, b } => {
                let p = match a.to_fast_path_body() {
                    Some(p) => p,
                    None => return None,
                };
                match b.to_fast_path_body() {
                    Some(q) => Some(SpanQuery::Before { a: Box::new(p), b: Box::new(q) }),
                    None => None,
                }
            },
            SpanExpr::After { a, b } => {
                let p = match a.to_fast_path_body() {
                    Some(p) => p,
                    None => return None,
                };
                match b.to_fast_path_body() {
                    Some(q) => Some(SpanQuery::After { a: Box::new(p), b: Box::new(q) }),
                    None => None,
                }
            },
        }
    }

    /// The span query this expression denotes in a document of
    /// `search_doc_len` words.
    pub fn resolve(&self, search_doc_len: u32) -> (r: SpanQuery)
        ensures
            r@ == spec_resolve(self@, search_doc_len),
        decreases *self,
    {
        match self {
            SpanExpr::Empty => SpanQuery::Empty,
            SpanExpr::Term(i) => SpanQuery::Term(*i),
            SpanExpr::Ordered(children) => SpanQuery::Ordered(resolve_children(children, search_doc_len)),
            SpanExpr::Unordered(children) => SpanQuery::Unordered(resolve_children(children, search_doc_len)),
            SpanExpr::Or(children) => {
                let resolved = resolve_children(children, search_doc_len);
                let mut kept = nonempty_children(&resolved);
                proof { lemma_trees_of_index(kept@); }
                if kept.len() == 0 {
                    SpanQuery::Empty
                } else if kept.len() == 1 {
                    kept.pop().unwrap()
                } else {
                    SpanQuery::Or(kept)
                }
            },
            SpanExpr::AtLeast { min, children } => {
                let resolved = resolve_children(children, search_doc_len);
                let kept = nonempty_children(&resolved);
                at_least_query(*min, kept)
            },
            SpanExpr::MaxGaps { max_gaps, inner } => SpanQuery::MaxGaps { max_gaps: *max_gaps, inner: Box::new(inner.resolve(search_doc_len)) },
            SpanExpr::GapsInRange { min_gaps, max_gaps, inner } => SpanQuery::GapsInRange { min_gaps: *min_gaps, max_gaps: *max_gaps, inner: Box::new(inner.resolve(search_doc_len)) },
            SpanExpr::MaxWidth { max_width, inner } => SpanQuery::MaxWidth { max_width: *max_width, inner: Box::new(inner.resolve(search_doc_len)) },
            SpanExpr::WithinPositions { lo, hi, inner } => SpanQuery::WithinPositions { lo: *lo, hi: *hi, inner: Box::new(inner.resolve(search_doc_len)) },
            SpanExpr::PositionFilter { inner, filter } => match filter.resolve_window(search_doc_len) {
                Some(window) => SpanQuery::WithinPositions {
                    inner: Box::new(inner.resolve(search_doc_len)),
                    lo: window.lo,
                    hi: window.hi,
                },
                None => SpanQuery::Empty,
            },
            SpanExpr::Containing { big, little } => SpanQuery::Containing {
                big: Box::new(big.resolve(search_doc_len)),
                little: Box::new(little.resolve(search_doc_len)),
            },
            SpanExpr::ContainedBy { little, big } => SpanQuery::ContainedBy {
                little: Box::new(little.resolve(search_doc_len)),
                big: Box::new(big.resolve(search_doc_len)),
            },
            SpanExpr::NotContaining { big, little } => SpanQuery::NotContaining {
                big: Box::new(big.resolve(search_doc_len)),
                little: Box::new(little.resolve(search_doc_len)),
            },
            SpanExpr::NotContainedBy { little, big } => SpanQuery::NotContainedBy {
                little: Box::new(little.resolve(search_doc_len)),
                big: Box::new(big.resolve(search_doc_len)),
            },
            SpanExpr::Overlapping { a, b } => SpanQuery::Overlapping {
                a: Box::new(a.resolve(search_doc_len)),
                b: Box::new(b.resolve(search_doc_len)),
            },
            SpanExpr::NonOverlapping { a, b } => SpanQuery::NonOverlapping {
                a: Box::new(a.resolve(search_doc_len)),
                b: Box::new(b.resolve(search_doc_len)),
            },
            SpanExpr::Before { a, b } => SpanQuery::Before {
                a: Box::new(a.resolve(search_doc_len)),
                b: Box::new(b.resolve(search_doc_len)),
            },
            SpanExpr::After { a, b } => SpanQuery::After {
                a: Box::new(a.resolve(search_doc_len)),
                b: Box::new(b.resolve(search_doc_len)),
            },
        }
    }
}

/// An expression that does not need the document length resolves to the
/// same span query for every document length.
pub proof fn lemma_resolve_independent_of_length(e: ExprTree, l1: u32, l2: u32)
    requires
        !spec_needs_len(e),
    ensures
        spec_resolve(e, l1) == spec_resolve(e, l2),
    decreases e,
{
    match e {
        ExprTree::Ordered(ch) => lemma_resolve_seq_independent_of_length(ch, l1, l2),
        ExprTree::Unordered(ch) => lemma_resolve_seq_independent_of_length(ch, l1, l2),
        ExprTree::Or(ch) => lemma_resolve_seq_independent_of_length(ch, l1, l2),
        ExprTree::AtLeast { children, .. } => lemma_resolve_seq_independent_of_length(children, l1, l2),
        ExprTree::MaxGaps { inner, .. } => lemma_resolve_independent_of_length(*inner, l1, l2),
        ExprTree::GapsInRange { inner, .. } => lemma_resolve_independent_of_length(*inner, l1, l2),
        ExprTree::MaxWidth { inner, .. } => lemma_resolve_independent_of_length(*inner, l1, l2),
        ExprTree::WithinPositions { inner, .. } => lemma_resolve_independent_of_length(*inner, l1, l2),
        ExprTree::PositionFilter { inner, .. } => lemma_resolve_independent_of_length(*inner, l1, l2),
        ExprTree::Containing { big, little } => {
            lemma_resolve_independent_of_length(*big, l1, l2);
            lemma_resolve_independent_of_length(*little, l1, l2);
        },
        ExprTree::ContainedBy { little, big } => {
            lemma_resolve_independent_of_length(*little, l1, l2);
            lemma_resolve_independent_of_length(*big, l1, l2);
        },
        ExprTree::NotContaining { big, little } => {
            lemma_resolve_independent_of_length(*big, l1, l2);
            lemma_resolve_independent_of_length(*little, l1, l2);
        },
        ExprTree::NotContainedBy { little, big } => {
            lemma_resolve_independent_of_length(*little, l1, l2);
            lemma_resolve_independent_of_length(*big, l1, l2);
        },
        ExprTree::Overlapping { a, b } => {
            lemma_resolve_independent_of_length(*a, l1, l2);
            lemma_resolve_independent_of_length(*b, l1, l2);
        },
        ExprTree::NonOverlapping { a, b } => {
            lemma_resolve_independent_of_length(*a, l1, l2);
            lemma_resolve_independent_of_length(*b, l1, l2);
        },
        ExprTree::Before { a, b } => {
            lemma_resolve_independent_of_length(*a, l1, l2);
            lemma_resolve_independent_of_length(*b, l1, l2);
        },
        ExprTree::After { a, b } => {
            lemma_resolve_independent_of_length(*a, l1, l2);
            lemma_resolve_independent_of_length(*b, l1, l2);
        },
        _ => {},
    }
}

/// The sequence form of [`lemma_resolve_independent_of_length`].
pub proof fn lemma_resolve_seq_independent_of_length(s: Seq<ExprTree>, l1: u32, l2: u32)
    requires
        !any_needs_len(s),
    ensures
        resolve_seq(s, l1) == resolve_seq(s, l2),
    decreases s,
{
    if s.len() > 0 {
        lemma_resolve_seq_independent_of_length(s.drop_last(), l1, l2);
        lemma_resolve_independent_of_length(s.last(), l1, l2);
    }
}

} // verus!
