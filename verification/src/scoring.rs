//! The terms a BM25 score sums over: the query's occurrences and the
//! term-set edit, without stop words, in lexical order.
use vstd::prelude::*;
use crate::stop_words::{ScoreStopWords, chars_equal, holds, views};
use crate::term_edit::{EditModel, TermSetEdit};
use crate::text::{chars_of, string_from_chars};

verus! {

/// Strict lexicographic order by code point, deciding from index `i` on:
/// the first position where the texts differ decides, and a proper prefix
/// comes first. For UTF-8 strings this is the byte order of `str`.
pub open spec fn lex_lt_from(a: Seq<char>, b: Seq<char>, i: int) -> bool
    decreases a.len() - i,
{
    if i < 0 || i >= b.len() {
        false
    } else if i >= a.len() {
        true
    } else if a[i] != b[i] {
        a[i] < b[i]
    } else {
        lex_lt_from(a, b, i + 1)
    }
}

/// `a` comes strictly before `b` in lexicographic order.
pub open spec fn lex_lt(a: Seq<char>, b: Seq<char>) -> bool {
    lex_lt_from(a, b, 0)
}

/// Every text comes strictly before the ones after it.
pub open spec fn lex_sorted(s: Seq<Seq<char>>) -> bool {
    forall|i: int, j: int| 0 <= i < j < s.len() ==> lex_lt(#[trigger] s[i], #[trigger] s[j])
}

/// No text comes before itself.
pub proof fn lemma_lex_irreflexive(a: Seq<char>, i: int)
    requires
        0 <= i,
    ensures
        !lex_lt_from(a, a, i),
    decreases a.len() - i,
{
    if i < a.len() {
        lemma_lex_irreflexive(a, i + 1);
    }
}

/// The order is transitive.
pub proof fn lemma_lex_transitive(a: Seq<char>, b: Seq<char>, c: Seq<char>, i: int)
    requires
        lex_lt_from(a, b, i),
        lex_lt_from(b, c, i),
    ensures
        lex_lt_from(a, c, i),
    decreases b.len() - i,
{
    if i < a.len() && a[i] == b[i] && b[i] == c[i] {
        lemma_lex_transitive(a, b, c, i + 1);
    }
}

/// Two different texts that agree before `i` are ordered one way or the
/// other.
pub proof fn lemma_lex_total(a: Seq<char>, b: Seq<char>, i: int)
    requires
        0 <= i <= a.len(),
        i <= b.len(),
        forall|k: int| 0 <= k < i ==> a[k] == b[k],
        a != b,
    ensures
        lex_lt_from(a, b, i) || lex_lt_from(b, a, i),
    decreases a.len() - i,
{
    if i == a.len() && i == b.len() {
        assert(a =~= b);
    } else if i < a.len() && i < b.len() && a[i] == b[i] {
        lemma_lex_total(a, b, i + 1);
    }
}

/// Sorted texts are pairwise different: a plan holds each term once.
pub proof fn lemma_sorted_texts_distinct(s: Seq<Seq<char>>, i: int, j: int)
    requires
        lex_sorted(s),
        0 <= i < s.len(),
        0 <= j < s.len(),
        i != j,
    ensures
        s[i] != s[j],
{
    lemma_lex_irreflexive(s[i], 0);
    if i < j {
        assert(lex_lt(s[i], s[j]));
    } else {
        assert(lex_lt(s[j], s[i]));
    }
}

/// Whether `a` comes strictly before `b`.
pub fn lex_less(a: &Vec<char>, b: &Vec<char>) -> (r: bool)
    ensures
        r == lex_lt(a@, b@),
{
    let mut i: usize = 0;
    loop
        invariant
            i <= a@.len(),
            i <= b@.len(),
            lex_lt(a@, b@) == lex_lt_from(a@, b@, i as int),
        decreases a@.len() - i,
    {
        if i >= b.len() {
            return false;
        }
        if i >= a.len() {
            return true;
        }
        if a[i] != b[i] {
            return a[i] < b[i];
        }
        i += 1;
    }
}

/// Adds `w` to the sorted texts `keys` unless it is there already.
fn insert_sorted(keys: &mut Vec<Vec<char>>, w: Vec<char>)
    requires
        lex_sorted(views(old(keys)@)),
    ensures
        lex_sorted(views(final(keys)@)),
        forall|x: Seq<char>| #[trigger] views(final(keys)@).contains(x) <==> (views(old(keys)@).contains(x) || x == w@),
{
    let ghost old_keys = views(keys@);
    let mut k: usize = 0;
    loop
        invariant
            k <= keys@.len(),
            views(keys@) == old_keys,
            lex_sorted(old_keys),
            forall|i: int| 0 <= i < k ==> lex_lt(#[trigger] keys@[i]@, w@),
        ensures
            k <= keys@.len(),
            views(keys@) == old_keys,
            forall|i: int| 0 <= i < k ==> lex_lt(#[trigger] keys@[i]@, w@),
            k < keys@.len() ==> !lex_lt(keys@[k as int]@, w@),
        decreases keys@.len() - k,
    {
        if k >= keys.len() {
            break;
        }
        if !lex_less(&keys[k], &w) {
            break;
        }
        k += 1;
    }
    if k < keys.len() && chars_equal(&keys[k], &w) {
        proof {
            assert(old_keys[k as int] == w@);
        }
        return;
    }
    proof {
        if k < keys@.len() {
            lemma_lex_total(keys@[k as int]@, w@, 0);
        }
        assert forall|i: int| 0 <= i < k implies lex_lt(#[trigger] old_keys[i], w@) by {
            assert(old_keys[i] == keys@[i]@);
        }
        assert forall|j: int| k <= j < old_keys.len() implies lex_lt(w@, #[trigger] old_keys[j]) by {
            if j > k {
                assert(lex_lt(old_keys[k as int], old_keys[j]));
                lemma_lex_transitive(w@, old_keys[k as int], old_keys[j], 0);
            }
        }
    }
    keys.insert(k, w);
    proof {
        let nk = views(keys@);
        assert(nk =~= old_keys.insert(k as int, w@));
        assert forall|i: int, j: int| 0 <= i < j < nk.len() implies lex_lt(#[trigger] nk[i], #[trigger] nk[j]) by {
            if j < k {
                assert(nk[i] == old_keys[i] && nk[j] == old_keys[j]);
            } else if j == k {
                assert(nk[i] == old_keys[i]);
            } else if i < k {
                assert(nk[i] == old_keys[i] && nk[j] == old_keys[j - 1]);
                assert(lex_lt(old_keys[i], w@));
                assert(lex_lt(w@, old_keys[j - 1]));
                lemma_lex_transitive(old_keys[i], w@, old_keys[j - 1], 0);
            } else if i == k {
                assert(nk[j] == old_keys[j - 1]);
            } else {
                assert(nk[i] == old_keys[i - 1] && nk[j] == old_keys[j - 1]);
            }
        }
        assert forall|x: Seq<char>| #[trigger] nk.contains(x) <==> (old_keys.contains(x) || x == w@) by {
            if nk.contains(x) {
                let i = choose|i: int| 0 <= i < nk.len() && nk[i] == x;
                if i < k {
                    assert(old_keys[i] == x);
                } else if i > k {
                    assert(old_keys[i - 1] == x);
                }
            }
            if old_keys.contains(x) {
                let i = choose|i: int| 0 <= i < old_keys.len() && old_keys[i] == x;
                if i < k {
                    assert(nk[i] == x);
                } else {
                    assert(nk[i + 1] == x);
                }
            }
            if x == w@ {
                assert(nk[k as int] == x);
            }
        }
    }
}

/// One occurrence of a term in the analyzed query: its text and whether it
/// carried an explicit boost, `^1.0` included.
#[derive(Debug, Clone, Copy)]
pub struct QueryTermOccurrence<'a> {
    pub text: &'a str,
    pub explicitly_boosted: bool,
}

/// A term the score sums over.
#[derive(Debug)]
pub struct PlannedScoringTerm {
    pub text: String,
    /// The query occurrences whose boosts the term's weight adds up, by
    /// index and in query order. None for a term only the edit brings: its
    /// weight is 1.0.
    pub occurrences: Vec<usize>,
    /// Kept even where dense terms are elided.
    pub pinned: bool,
}

/// The stop words given, as a set; none given is the empty set.
pub open spec fn stop_set(stop_words: Option<&ScoreStopWords>) -> Set<Seq<char>> {
    match stop_words {
        Some(w) => w.words(),
        None => Set::empty(),
    }
}

/// Whether the query's own occurrences count: all but a replacement.
pub open spec fn query_counts(m: EditModel) -> bool {
    !(m is Replace)
}

/// The texts an edit adds or replaces the query with.
pub open spec fn edit_terms(m: EditModel) -> Seq<Seq<char>> {
    match m {
        EditModel::Unchanged => Seq::empty(),
        EditModel::Add(t) => t,
        EditModel::Replace(t) => t,
    }
}

/// Whether the query has an occurrence of `w`.
pub open spec fn in_query(q: Seq<QueryTermOccurrence>, w: Seq<char>) -> bool {
    exists|i: int| 0 <= i < q.len() && (#[trigger] q[i]).text@ == w
}

/// Whether `w` is one of the terms the score sums over: not a stop word,
/// and either an occurrence of a query that counts or an edit term.
pub open spec fn scores_term(q: Seq<QueryTermOccurrence>, m: EditModel, stop: Set<Seq<char>>, w: Seq<char>) -> bool {
    !stop.contains(w) && ((query_counts(m) && in_query(q, w)) || edit_terms(m).contains(w))
}

/// The indices of the occurrences of `w` among the first `n` of the query,
/// in order.
pub open spec fn occurrences_of(q: Seq<QueryTermOccurrence>, w: Seq<char>, n: int) -> Seq<usize>
    decreases n,
{
    if n <= 0 {
        Seq::empty()
    } else if q[n - 1].text@ == w {
        occurrences_of(q, w, n - 1).push((n - 1) as usize)
    } else {
        occurrences_of(q, w, n - 1)
    }
}

/// Whether some occurrence of `w` in the query carried an explicit boost.
pub open spec fn boosted_in_query(q: Seq<QueryTermOccurrence>, w: Seq<char>) -> bool {
    exists|i: int| 0 <= i < q.len() && (#[trigger] q[i]).text@ == w && q[i].explicitly_boosted
}

/// The texts of a list of planned terms.
pub open spec fn planned_texts(r: Seq<PlannedScoringTerm>) -> Seq<Seq<char>> {
    r.map_values(|t: PlannedScoringTerm| t.text@)
}

/// Whether `text` is one of the stop words given.
fn is_stopped(stop_words: Option<&ScoreStopWords>, text: &str) -> (r: bool)
    ensures
        r == stop_set(stop_words).contains(text@),
{
    match stop_words {
        Some(w) => w.contains(text),
        None => false,
    }
}

/// The terms a score sums over, in lexical order, each once: the query's
/// occurrences unless the edit replaces them, then the edit's terms,
/// without stop words. A term's weight is the sum of the boosts of its
/// query occurrences, or 1.0 for a term only the edit brings; an edit term
/// and an explicitly boosted occurrence pin their term.
pub fn plan_scoring_terms(query: &Vec<QueryTermOccurrence>, edit: &TermSetEdit, stop_words: Option<&ScoreStopWords>)
    -> (r: Vec<PlannedScoringTerm>)
    ensures
        lex_sorted(planned_texts(r@)),
        forall|w: Seq<char>| #[trigger] planned_texts(r@).contains(w)
            <==> scores_term(query@, edit.model(), stop_set(stop_words), w),
        forall|i: int| 0 <= i < r@.len() ==> (#[trigger] r@[i]).occurrences@ == if query_counts(edit.model()) {
            occurrences_of(query@, r@[i].text@, query@.len() as int)
        } else {
            Seq::empty()
        },
        forall|i: int| 0 <= i < r@.len() ==> (#[trigger] r@[i]).pinned == (edit_terms(edit.model()).contains(r@[i].text@)
            || (query_counts(edit.model()) && boosted_in_query(query@, r@[i].text@))),
{
    let ghost q = query@;
    let ghost m = edit.model();
    let ghost stop = stop_set(stop_words);
    let counts = match edit {
        TermSetEdit::Replace(_) => false,
        _ => true,
    };
    let mut qchars: Vec<Vec<char>> = Vec::new();
    let mut i: usize = 0;
    while i < query.len()
        invariant
            i <= q.len(),
            q == query@,
            qchars@.len() == i,
            forall|k: int| 0 <= k < i ==> (#[trigger] qchars@[k])@ == q[k].text@,
        decreases q.len() - i,
    {
        qchars.push(chars_of(query[i].text));
        i += 1;
    }
    let mut echars: Vec<Vec<char>> = Vec::new();
    match edit {
        TermSetEdit::Unchanged => {},
        TermSetEdit::Add(t) | TermSetEdit::Replace(t) => {
            let mut j: usize = 0;
            while j < t.len()
                invariant
                    j <= t@.len(),
                    views(echars@) == crate::term_edit::texts(t@).take(j as int),
                decreases t@.len() - j,
            {
                let ghost before = views(echars@);
                echars.push(chars_of(t[j].as_str()));
                proof {
                    assert(views(echars@) =~= before.push(t@[j as int]@));
                    assert(crate::term_edit::texts(t@).take(j + 1) =~= crate::term_edit::texts(t@).take(j as int).push(t@[j as int]@));
                }
                j += 1;
            }
            proof {
                assert(crate::term_edit::texts(t@).take(j as int) =~= crate::term_edit::texts(t@));
            }
        },
    }
    assert(views(echars@) == edit_terms(m));
    assert(counts == query_counts(m));
    let mut keys: Vec<Vec<char>> = Vec::new();
    if counts {
        let mut j: usize = 0;
        while j < query.len()
            invariant
                j <= q.len(),
                q == query@,
                counts == query_counts(m),
                counts,
                stop == stop_set(stop_words),
                lex_sorted(views(keys@)),
                forall|x: Seq<char>| #[trigger] views(keys@).contains(x) <==> (!stop.contains(x)
                    && exists|k: int| 0 <= k < j && (#[trigger] q[k]).text@ == x),
            decreases q.len() - j,
        {
            let ghost before = views(keys@);
            if !is_stopped(stop_words, query[j].text) {
                insert_sorted(&mut keys, chars_of(query[j].text));
            }
            proof {
                assert forall|x: Seq<char>| #[trigger] views(keys@).contains(x) <==> (!stop.contains(x)
                    && exists|k: int| 0 <= k < j + 1 && (#[trigger] q[k]).text@ == x) by {
                    if exists|k: int| 0 <= k < j + 1 && (#[trigger] q[k]).text@ == x {
                        let k = choose|k: int| 0 <= k < j + 1 && (#[trigger] q[k]).text@ == x;
                        if k < j {
                            assert(before.contains(x) || stop.contains(x));
                        }
                    }
                    if before.contains(x) {
                        let k = choose|k: int| 0 <= k < j && (#[trigger] q[k]).text@ == x;
                        assert(0 <= k < j + 1);
                    }
                }
            }
            j += 1;
        }
    }
    let ghost query_part = views(keys@);
    proof {
        assert forall|x: Seq<char>| #[trigger] query_part.contains(x) <==> (!stop.contains(x) && query_counts(m) && in_query(q, x)) by {
            if query_part.contains(x) && counts {
                let k = choose|k: int| 0 <= k < q.len() && (#[trigger] q[k]).text@ == x;
                assert(in_query(q, x));
            }
            if !counts {
                assert(keys@.len() == 0);
                assert(!query_part.contains(x));
            }
            if counts && in_query(q, x) {
                let k = choose|k: int| 0 <= k < q.len() && (#[trigger] q[k]).text@ == x;
                assert(exists|k: int| 0 <= k < q.len() && (#[trigger] q[k]).text@ == x);
            }
        }
    }
    let mut j: usize = 0;
    while j < echars.len()
        invariant
            j <= echars@.len(),
            views(echars@) == edit_terms(m),
            stop == stop_set(stop_words),
            lex_sorted(views(keys@)),
            forall|x: Seq<char>| #[trigger] views(keys@).contains(x) <==> (query_part.contains(x)
                || (!stop.contains(x) && exists|k: int| 0 <= k < j && (#[trigger] echars@[k])@ == x)),
        decreases echars@.len() - j,
    {
        let ghost before = views(keys@);
        let e = string_from_chars(&echars[j]);
        if !is_stopped(stop_words, e.as_str()) {
            insert_sorted(&mut keys, chars_of(e.as_str()));
        }
        proof {
            assert forall|x: Seq<char>| #[trigger] views(keys@).contains(x) <==> (query_part.contains(x)
                || (!stop.contains(x) && exists|k: int| 0 <= k < j + 1 && (#[trigger] echars@[k])@ == x)) by {
                if exists|k: int| 0 <= k < j + 1 && (#[trigger] echars@[k])@ == x {
                    let k = choose|k: int| 0 <= k < j + 1 && (#[trigger] echars@[k])@ == x;
                    if k < j {
                        assert(before.contains(x) || stop.contains(x));
                    }
                }
                if before.contains(x) && !query_part.contains(x) {
                    let k = choose|k: int| 0 <= k < j && (#[trigger] echars@[k])@ == x;
                    assert(0 <= k < j + 1);
                }
            }
        }
        j += 1;
    }
    proof {
        assert forall|x: Seq<char>| #[trigger] views(keys@).contains(x) <==> scores_term(q, m, stop, x) by {
            if exists|k: int| 0 <= k < echars@.len() && (#[trigger] echars@[k])@ == x {
                let k = choose|k: int| 0 <= k < echars@.len() && (#[trigger] echars@[k])@ == x;
                assert(views(echars@)[k] == x);
            }
            if edit_terms(m).contains(x) {
                let k = choose|k: int| 0 <= k < edit_terms(m).len() && edit_terms(m)[k] == x;
                assert(views(echars@)[k] == x);
                assert((echars@[k])@ == x);
            }
        }
    }
    let ghost ks = views(keys@);
    let mut out: Vec<PlannedScoringTerm> = Vec::new();
    let mut j: usize = 0;
    while j < keys.len()
        invariant
            j <= keys@.len(),
            ks == views(keys@),
            q == query@,
            qchars@.len() == q.len(),
            forall|k: int| 0 <= k < q.len() ==> (#[trigger] qchars@[k])@ == q[k].text@,
            views(echars@) == edit_terms(m),
            counts == query_counts(m),
            planned_texts(out@) == ks.take(j as int),
            forall|i: int| 0 <= i < out@.len() ==> (#[trigger] out@[i]).occurrences@ == if query_counts(m) {
                occurrences_of(q, out@[i].text@, q.len() as int)
            } else {
                Seq::empty()
            },
            forall|i: int| 0 <= i < out@.len() ==> (#[trigger] out@[i]).pinned == (edit_terms(m).contains(out@[i].text@)
                || (query_counts(m) && boosted_in_query(q, out@[i].text@))),
        decreases keys@.len() - j,
    {
        let key = &keys[j];
        let mut occurrences: Vec<usize> = Vec::new();
        let mut boosted = false;
        if counts {
            let mut k: usize = 0;
            while k < qchars.len()
                invariant
                    k <= q.len(),
                    q == query@,
                    qchars@.len() == q.len(),
                    forall|t: int| 0 <= t < q.len() ==> (#[trigger] qchars@[t])@ == q[t].text@,
                    occurrences@ == occurrences_of(q, key@, k as int),
                    boosted == exists|t: int| 0 <= t < k && (#[trigger] q[t]).text@ == key@ && q[t].explicitly_boosted,
                decreases q.len() - k,
            {
                if chars_equal(&qchars[k], key) {
                    occurrences.push(k);
                    if query[k].explicitly_boosted {
                        boosted = true;
                    }
                }
                proof {
                    assert(boosted == exists|t: int| 0 <= t < k + 1 && (#[trigger] q[t]).text@ == key@ && q[t].explicitly_boosted) by {
                        if exists|t: int| 0 <= t < k + 1 && (#[trigger] q[t]).text@ == key@ && q[t].explicitly_boosted {
                            let t = choose|t: int| 0 <= t < k + 1 && (#[trigger] q[t]).text@ == key@ && q[t].explicitly_boosted;
                            if t == k {
                                assert(qchars@[t]@ == key@);
                            }
                        }
                    }
                }
                k += 1;
            }
        }
        let pinned = holds(&echars, key) || boosted;
        let text = string_from_chars(key);
        let ghost before = out@;
        out.push(PlannedScoringTerm { text, occurrences, pinned });
        proof {
            assert(planned_texts(out@) =~= planned_texts(before).push(ks[j as int]));
            assert(ks.take(j + 1) =~= ks.take(j as int).push(ks[j as int]));
        }
        j += 1;
    }
    proof {
        assert(ks.take(keys@.len() as int) =~= ks);
    }
    out
}

} // verus!
