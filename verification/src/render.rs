//! Text rendering of span queries in the internal operator notation.
use vstd::prelude::*;
use crate::query::{SpanQuery, SpanTree, tree_of, trees_of, lemma_trees_of_take};
use crate::text::{decimal, push_decimal, push_str, string_from_chars};

verus! {

/// How a `Term(i)` leaf is written: the caller's label for `i` when labels
/// are in use and one exists, otherwise `TERM(i)`.
pub open spec fn render_leaf(i: usize, labels: Seq<Seq<char>>, labeled: bool) -> Seq<char> {
    if labeled && i < labels.len() {
        labels[i as int]
    } else {
        "TERM("@ + decimal(i as nat) + ")"@
    }
}

/// The operator notation of a query tree, e.g. `MAXWIDTH(7, OR(TERM(0), TERM(1)))`.
pub open spec fn render(t: SpanTree, labels: Seq<Seq<char>>, labeled: bool) -> Seq<char>
    decreases t,
{
    match t {
        SpanTree::Empty => "EMPTY"@,
        SpanTree::Term(i) => render_leaf(i, labels, labeled),
        SpanTree::Ordered(ch) => "ORDERED("@ + render_list(ch, labels, labeled) + ")"@,
        SpanTree::Unordered(ch) => "UNORDERED("@ + render_list(ch, labels, labeled) + ")"@,
        SpanTree::Or(ch) => "OR("@ + render_list(ch, labels, labeled) + ")"@,
        SpanTree::MaxGaps { max_gaps, inner } => "MAXGAPS("@ + decimal(max_gaps as nat) + ", "@
            + render(*inner, labels, labeled) + ")"@,
        SpanTree::GapsInRange { min_gaps, max_gaps, inner } => "GAPS("@ + decimal(min_gaps as nat)
            + ".."@ + decimal(max_gaps as nat) + ", "@ + render(*inner, labels, labeled) + ")"@,
        SpanTree::MaxWidth { max_width, inner } => "MAXWIDTH("@ + decimal(max_width as nat)
            + ", "@ + render(*inner, labels, labeled) + ")"@,
        SpanTree::WithinPositions { inner, lo, hi } => "WITHIN_POSITIONS("@ + decimal(lo as nat)
            + ", "@ + decimal(hi as nat) + ", "@ + render(*inner, labels, labeled) + ")"@,
        SpanTree::Containing { big, little } => "CONTAINING("@ + render(*big, labels, labeled) + ", "@ + render(*little, labels, labeled) + ")"@,
        SpanTree::ContainedBy { little, big } => "CONTAINED_BY("@ + render(*little, labels, labeled) + ", "@ + render(*big, labels, labeled) + ")"@,
        SpanTree::NotContaining { big, little } => "NOT_CONTAINING("@ + render(*big, labels, labeled) + ", "@ + render(*little, labels, labeled) + ")"@,
        SpanTree::NotContainedBy { little, big } => "NOT_CONTAINED_BY("@ + render(*little, labels, labeled) + ", "@ + render(*big, labels, labeled) + ")"@,
        SpanTree::Overlapping { a, b } => "OVERLAPPING("@ + render(*a, labels, labeled) + ", "@ + render(*b, labels, labeled) + ")"@,
        SpanTree::NonOverlapping { a, b } => "NON_OVERLAPPING("@ + render(*a, labels, labeled) + ", "@ + render(*b, labels, labeled) + ")"@,
        SpanTree::Before { a, b } => "BEFORE("@ + render(*a, labels, labeled) + ", "@ + render(*b, labels, labeled) + ")"@,
        SpanTree::After { a, b } => "AFTER("@ + render(*a, labels, labeled) + ", "@ + render(*b, labels, labeled) + ")"@,
    }
}

/// The renderings of `s` separated by `", "`.
pub open spec fn render_list(s: Seq<SpanTree>, labels: Seq<Seq<char>>, labeled: bool) -> Seq<char>
    decreases s,
{
    if s.len() == 0 {
        Seq::empty()
    } else if s.len() == 1 {
        render(s[0], labels, labeled)
    } else {
        render_list(s.drop_last(), labels, labeled) + ", "@ + render(s.last(), labels, labeled)
    }
}

/// The labels as character sequences.
pub open spec fn label_seqs(terms: Seq<&str>) -> Seq<Seq<char>> {
    terms.map_values(|t: &str| t@)
}

/// A rendering of a query with caller-provided term labels substituted for
/// `Term(i)` leaves.
pub struct SpanQueryWithTerms<'a> {
    pub query: &'a SpanQuery,
    pub terms: &'a [&'a str],
}

fn render_into(out: &mut Vec<char>, q: &SpanQuery, labels: &[&str], labeled: bool)
    ensures
        final(out)@ == old(out)@ + render(q@, label_seqs(labels@), labeled),
    decreases *q, 1nat,
{
    let ghost ls = label_seqs(labels@);
    let ghost start = out@;
    match q {
        SpanQuery::Empty => push_str(out, "EMPTY"),
        SpanQuery::Term(i) => {
            if labeled && *i < labels.len() {
                push_str(out, labels[*i]);
            } else {
                push_str(out, "TERM(");
                push_decimal(out, *i as u64);
                push_str(out, ")");
                assert(out@ =~= start + render(q@, ls, labeled));
            }
        },
        SpanQuery::Ordered(ch) => render_nary(out, "ORDERED(", ch, labels, labeled),
        SpanQuery::Unordered(ch) => render_nary(out, "UNORDERED(", ch, labels, labeled),
        SpanQuery::Or(ch) => render_nary(out, "OR(", ch, labels, labeled),
        SpanQuery::MaxGaps { .. } | SpanQuery::GapsInRange { .. } | SpanQuery::MaxWidth { .. }
        | SpanQuery::WithinPositions { .. } => render_unary(out, q, labels, labeled),
        _ => render_binary(out, q, labels, labeled),
    }
}

#[verifier::spinoff_prover]
fn render_unary(out: &mut Vec<char>, q: &SpanQuery, labels: &[&str], labeled: bool)
    requires
        q matches SpanQuery::MaxGaps { .. } || q matches SpanQuery::GapsInRange { .. }
            || q matches SpanQuery::MaxWidth { .. } || q matches SpanQuery::WithinPositions { .. },
    ensures
        final(out)@ == old(out)@ + render(q@, label_seqs(labels@), labeled),
    decreases *q, 0nat,
{
    let ghost ls = label_seqs(labels@);
    let ghost start = out@;
    match q {
        SpanQuery::MaxGaps { max_gaps, inner } => {
            push_str(out, "MAXGAPS(");
            push_decimal(out, *max_gaps as u64);
            push_str(out, ", ");
            render_into(out, inner, labels, labeled);
            push_str(out, ")");
            assert(out@ =~= start + render(q@, ls, labeled));
        },
        SpanQuery::GapsInRange { min_gaps, max_gaps, inner } => {
            push_str(out, "GAPS(");
            push_decimal(out, *min_gaps as u64);
            push_str(out, "..");
            push_decimal(out, *max_gaps as u64);
            push_str(out, ", ");
            render_into(out, inner, labels, labeled);
            push_str(out, ")");
            assert(out@ =~= start + render(q@, ls, labeled));
        },
        SpanQuery::MaxWidth { max_width, inner } => {
            push_str(out, "MAXWIDTH(");
            push_decimal(out, *max_width as u64);
            push_str(out, ", ");
            render_into(out, inner, labels, labeled);
            push_str(out, ")");
            assert(out@ =~= start + render(q@, ls, labeled));
        },
        SpanQuery::WithinPositions { inner, lo, hi } => {
            push_str(out, "WITHIN_POSITIONS(");
            push_decimal(out, *lo as u64);
            push_str(out, ", ");
            push_decimal(out, *hi as u64);
            push_str(out, ", ");
            render_into(out, inner, labels, labeled);
            push_str(out, ")");
            assert(out@ =~= start + render(q@, ls, labeled));
        },
        _ => {},
    }
}

#[verifier::spinoff_prover]
#[verifier::rlimit(40)]
fn render_binary(out: &mut Vec<char>, q: &SpanQuery, labels: &[&str], labeled: bool)
    requires
        !(q matches SpanQuery::Empty || q matches SpanQuery::Term(_) || q matches SpanQuery::Ordered(_)
            || q matches SpanQuery::Unordered(_) || q matches SpanQuery::Or(_)
            || q matches SpanQuery::MaxGaps { .. } || q matches SpanQuery::GapsInRange { .. }
            || q matches SpanQuery::MaxWidth { .. } || q matches SpanQuery::WithinPositions { .. }),
    ensures
        final(out)@ == old(out)@ + render(q@, label_seqs(labels@), labeled),
    decreases *q, 0nat,
{
    let ghost ls = label_seqs(labels@);
    let ghost start = out@;
    let (name, x, y) = match q {
        SpanQuery::Containing { big, little } => ("CONTAINING(", big, little),
        SpanQuery::ContainedBy { little, big } => ("CONTAINED_BY(", little, big),
        SpanQuery::NotContaining { big, little } => ("NOT_CONTAINING(", big, little),
        SpanQuery::NotContainedBy { little, big } => ("NOT_CONTAINED_BY(", little, big),
        SpanQuery::Overlapping { a, b } => ("OVERLAPPING(", a, b),
        SpanQuery::NonOverlapping { a, b } => ("NON_OVERLAPPING(", a, b),
        SpanQuery::Before { a, b } => ("BEFORE(", a, b),
        SpanQuery::After { a, b } => ("AFTER(", a, b),
        _ => {
            return;
        },
    };
    assert(render(q@, ls, labeled) == name@ + render(x@, ls, labeled) + ", "@ + render(y@, ls, labeled) + ")"@);
    push_str(out, name);
    render_into(out, x, labels, labeled);
    push_str(out, ", ");
    render_into(out, y, labels, labeled);
    push_str(out, ")");
    assert(out@ =~= start + render(q@, ls, labeled));
}

fn render_nary(
    out: &mut Vec<char>,
    name: &str,
    children: &Vec<SpanQuery>,
    labels: &[&str],
    labeled: bool,
)
    ensures
        final(out)@ == old(out)@ + name@ + render_list(trees_of(children@), label_seqs(labels@), labeled)
            + ")"@,
    decreases children@, 0nat,
{
    let ghost ls = label_seqs(labels@);
    push_str(out, name);
    let ghost base = out@;
    let mut i: usize = 0;
    while i < children.len()
        invariant
            i <= children@.len(),
            out@ == base + render_list(trees_of(children@.take(i as int)), ls, labeled),
            ls == label_seqs(labels@),
        decreases children@.len() - i,
    {
        proof {
            lemma_trees_of_take(children@, i as int);
            let t = trees_of(children@.take(i as int));
            assert(t.push(tree_of(children@[i as int])).drop_last() == t);
        }
        if i > 0 {
            push_str(out, ", ");
        }
        let ghost before = out@;
        render_into(out, &children[i], labels, labeled);
        proof {
            let t = trees_of(children@.take(i as int));
            let t1 = trees_of(children@.take(i + 1));
            if i == 0 {
                assert(t1.len() == 1);
                assert(render_list(t1, ls, labeled) == render(t1[0], ls, labeled));
            }
            assert(out@ =~= base + render_list(t1, ls, labeled));
        }
        i += 1;
    }
    assert(children@.take(children@.len() as int) == children@);
    push_str(out, ")");
    assert(out@ =~= old(out)@ + name@ + render_list(trees_of(children@), ls, labeled) + ")"@);
}

impl SpanQuery {
    /// The operator notation of this query, e.g. `MAXWIDTH(7, OR(TERM(0), TERM(1)))`.
    pub fn to_string(&self) -> (r: String)
        ensures
            r@ == render(self@, Seq::empty(), false),
    {
        let mut out: Vec<char> = Vec::new();
        let labels: [&str; 0] = [];
        render_into(&mut out, self, labels.as_slice(), false);
        assert(label_seqs(labels@) == Seq::<Seq<char>>::empty());
        string_from_chars(&out)
    }

    /// A rendering wrapper that writes `Term(i)` leaves using the
    /// caller-provided labels instead of numeric indices.
    pub fn display_with_terms<'a>(&'a self, terms: &'a [&'a str]) -> (r: SpanQueryWithTerms<'a>)
        ensures
            r.query == self,
            r.terms == terms,
    {
        SpanQueryWithTerms { query: self, terms }
    }
}

impl<'a> SpanQueryWithTerms<'a> {
    /// The operator notation with labels substituted, e.g. `MAXWIDTH(7, OR(l.a, nood1e))`.
    pub fn to_string(&self) -> (r: String)
        ensures
            r@ == render(self.query@, label_seqs(self.terms@), true),
    {
        let mut out: Vec<char> = Vec::new();
        render_into(&mut out, self.query, self.terms, true);
        string_from_chars(&out)
    }
}

} // verus!
