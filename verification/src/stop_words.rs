//! Score stop words: a comma-separated list of exact terms that never score.
use vstd::prelude::*;
use crate::text::{chars_of, string_from_chars};
use crate::whitespace::{is_white_space, white_space};

verus! {

/// `s` without its leading whitespace.
pub open spec fn trim_start(s: Seq<char>) -> Seq<char>
    decreases s.len(),
{
    if s.len() > 0 && is_white_space(s[0]) { trim_start(s.drop_first()) } else { s }
}

/// `s` without its trailing whitespace.
pub open spec fn trim_end(s: Seq<char>) -> Seq<char>
    decreases s.len(),
{
    if s.len() > 0 && is_white_space(s.last()) { trim_end(s.drop_last()) } else { s }
}

/// `s` without leading and trailing whitespace, as `str::trim` gives it.
pub open spec fn trimmed(s: Seq<char>) -> Seq<char> {
    trim_end(trim_start(s))
}

/// The comma-separated fields of `s` from index `i` on, `cur` being the
/// part of the current field read so far.
pub open spec fn fields_from(s: Seq<char>, i: int, cur: Seq<char>) -> Seq<Seq<char>>
    decreases s.len() - i,
{
    if i < 0 || i >= s.len() {
        seq![cur]
    } else if s[i] == ',' {
        seq![cur] + fields_from(s, i + 1, Seq::empty())
    } else {
        fields_from(s, i + 1, cur.push(s[i]))
    }
}

/// The comma-separated fields of `s`, as `str::split(',')` gives them.
pub open spec fn csv_fields(s: Seq<char>) -> Seq<Seq<char>> {
    fields_from(s, 0, Seq::empty())
}

/// `w` is the trimmed form of one of `fields`, and not empty.
pub open spec fn is_listed(fields: Seq<Seq<char>>, w: Seq<char>) -> bool {
    w.len() > 0 && exists|k: int| 0 <= k < fields.len() && #[trigger] trimmed(fields[k]) == w
}

/// The stop words a comma-separated list names: its trimmed, non-empty fields.
pub open spec fn csv_stop_words(csv: Seq<char>) -> Set<Seq<char>> {
    Set::new(|w: Seq<char>| is_listed(csv_fields(csv), w))
}

proof fn lemma_trim_start(s: Seq<char>, a: int)
    requires
        0 <= a <= s.len(),
        forall|k: int| 0 <= k < a ==> is_white_space(#[trigger] s[k]),
        a == s.len() || !is_white_space(s[a]),
    ensures
        trim_start(s) == s.subrange(a, s.len() as int),
    decreases a,
{
    if a > 0 {
        let t = s.drop_first();
        assert forall|k: int| 0 <= k < a - 1 implies is_white_space(#[trigger] t[k]) by {
            assert(t[k] == s[k + 1]);
        }
        if a - 1 < t.len() {
            assert(t[a - 1] == s[a]);
        }
        lemma_trim_start(t, a - 1);
        assert(t.subrange(a - 1, t.len() as int) == s.subrange(a, s.len() as int));
    } else {
        assert(s.subrange(0, s.len() as int) == s);
    }
}

proof fn lemma_trim_end(s: Seq<char>, b: int)
    requires
        0 <= b <= s.len(),
        forall|k: int| b <= k < s.len() ==> is_white_space(#[trigger] s[k]),
        b == 0 || !is_white_space(s[b - 1]),
    ensures
        trim_end(s) == s.subrange(0, b),
    decreases s.len() - b,
{
    if b < s.len() {
        let t = s.drop_last();
        assert(is_white_space(s[s.len() - 1]));
        assert forall|k: int| b <= k < t.len() implies is_white_space(#[trigger] t[k]) by {
            assert(t[k] == s[k]);
        }
        if b > 0 {
            assert(t[b - 1] == s[b - 1]);
        }
        lemma_trim_end(t, b);
        assert(t.subrange(0, b) == s.subrange(0, b));
    } else {
        assert(s.subrange(0, b) == s);
    }
}

/// The trimmed form of `s`.
fn trim_chars(s: &Vec<char>) -> (r: Vec<char>)
    ensures
        r@ == trimmed(s@),
{
    let n = s.len();
    let mut a: usize = 0;
    while a < n && white_space(s[a])
        invariant
            n == s@.len(),
            a <= n,
            forall|k: int| 0 <= k < a ==> is_white_space(#[trigger] s@[k]),
        decreases n - a,
    {
        a += 1;
    }
    proof {
        lemma_trim_start(s@, a as int);
    }
    let mut b: usize = n;
    while b > a && white_space(s[b - 1])
        invariant
            n == s@.len(),
            a <= b <= n,
            forall|k: int| b <= k < n ==> is_white_space(#[trigger] s@[k]),
        decreases b,
    {
        b -= 1;
    }
    let ghost t = s@.subrange(a as int, n as int);
    proof {
        assert forall|k: int| b - a <= k < t.len() implies is_white_space(#[trigger] t[k]) by {
            assert(t[k] == s@[a + k]);
        }
        if b > a {
            assert(t[b - a - 1] == s@[b - 1]);
        }
        lemma_trim_end(t, b - a);
        assert(t.subrange(0, b - a) == s@.subrange(a as int, b as int));
    }
    let mut out: Vec<char> = Vec::new();
    let mut k: usize = a;
    while k < b
        invariant
            n == s@.len(),
            a <= k <= b <= n,
            out@ == s@.subrange(a as int, k as int),
        decreases b - k,
    {
        out.push(s[k]);
        k += 1;
    }
    out
}

/// Whether two character vectors are equal.
pub(crate) fn chars_equal(a: &Vec<char>, b: &Vec<char>) -> (r: bool)
    ensures
        r == (a@ == b@),
{
    if a.len() != b.len() {
        return false;
    }
    let mut i: usize = 0;
    while i < a.len()
        invariant
            a@.len() == b@.len(),
            i <= a@.len(),
            forall|k: int| 0 <= k < i ==> a@[k] == b@[k],
        decreases a@.len() - i,
    {
        if a[i] != b[i] {
            return false;
        }
        i += 1;
    }
    assert(a@ =~= b@);
    true
}

/// The texts of a list of character vectors.
pub open spec fn views(v: Seq<Vec<char>>) -> Seq<Seq<char>> {
    v.map_values(|t: Vec<char>| t@)
}

/// Whether `list` holds `w`.
pub(crate) fn holds(list: &Vec<Vec<char>>, w: &Vec<char>) -> (r: bool)
    ensures
        r == views(list@).contains(w@),
{
    let mut i: usize = 0;
    while i < list.len()
        invariant
            i <= list@.len(),
            forall|k: int| 0 <= k < i ==> list@[k]@ != w@,
        decreases list@.len() - i,
    {
        if chars_equal(&list[i], w) {
            assert(views(list@)[i as int] == w@);
            return true;
        }
        i += 1;
    }
    proof {
        if views(list@).contains(w@) {
            let k = choose|k: int| 0 <= k < views(list@).len() && views(list@)[k] == w@;
            assert(list@[k]@ == w@);
        }
    }
    false
}

/// A set of stop words, held in a `rustc_hash::FxHashSet<String>`.
#[verifier::external_body]
#[derive(Debug)]
pub struct StopSet {
    set: rustc_hash::FxHashSet<String>,
}

/// The words a stop-word set holds.
pub uninterp spec fn stop_set_words(s: StopSet) -> Set<Seq<char>>;

/// Calls `FxHashSet::default`: a set holding nothing.
#[verifier::external_body]
fn stop_set_new() -> (r: StopSet)
    ensures
        stop_set_words(r) == Set::<Seq<char>>::empty(),
{
    StopSet { set: rustc_hash::FxHashSet::default() }
}

/// Calls `HashSet::insert`: the set then holds `w` besides what it held.
#[verifier::external_body]
fn stop_set_insert(s: &mut StopSet, w: String)
    ensures
        stop_set_words(*final(s)) == stop_set_words(*old(s)).insert(w@),
{
    s.set.insert(w);
}

/// Calls `HashSet::contains`: whether the set holds `w`.
#[verifier::external_body]
fn stop_set_contains(s: &StopSet, w: &str) -> (r: bool)
    ensures
        r == stop_set_words(*s).contains(w@),
{
    s.set.contains(w)
}

/// Calls `HashSet::is_empty`: whether the set holds nothing.
#[verifier::external_body]
fn stop_set_is_empty(s: &StopSet) -> (r: bool)
    ensures
        r == (stop_set_words(*s) == Set::<Seq<char>>::empty()),
{
    s.set.is_empty()
}

/// Adds the trimmed `field` to `terms` unless it is empty.
fn add_field(terms: &mut StopSet, field: &Vec<char>)
    ensures
        ({
            let t = trimmed(field@);
            stop_set_words(*final(terms)) == if t.len() > 0 {
                stop_set_words(*old(terms)).insert(t)
            } else {
                stop_set_words(*old(terms))
            }
        }),
{
    let t = trim_chars(field);
    if t.len() > 0 {
        stop_set_insert(terms, string_from_chars(&t));
    }
}

/// Reading one more field keeps the held words those the fields list.
proof fn lemma_add_field(before: Set<Seq<char>>, after: Set<Seq<char>>, done: Seq<Seq<char>>, field: Seq<char>)
    requires
        forall|w: Seq<char>| #[trigger] before.contains(w) <==> is_listed(done, w),
        after == (if trimmed(field).len() > 0 { before.insert(trimmed(field)) } else { before }),
    ensures
        forall|w: Seq<char>| #[trigger] after.contains(w) <==> is_listed(done.push(field), w),
{
    let t = trimmed(field);
    let d2 = done.push(field);
    assert forall|w: Seq<char>| #[trigger] after.contains(w) <==> is_listed(d2, w) by {
        if is_listed(d2, w) {
            let k = choose|k: int| 0 <= k < d2.len() && #[trigger] trimmed(d2[k]) == w;
            if k < done.len() {
                assert(d2[k] == done[k]);
                assert(is_listed(done, w));
            } else {
                assert(w == t);
            }
        }
        if after.contains(w) {
            if before.contains(w) {
                assert(is_listed(done, w));
                let k = choose|k: int| 0 <= k < done.len() && #[trigger] trimmed(done[k]) == w;
                assert(d2[k] == done[k]);
            } else {
                assert(w == t);
                assert(trimmed(d2[done.len() as int]) == w);
            }
        }
    }
}

/// The stop words of a score: exact terms, each held once.
#[derive(Debug)]
pub struct ScoreStopWords {
    terms: StopSet,
}

impl ScoreStopWords {
    /// The stop words held.
    pub closed spec fn words(&self) -> Set<Seq<char>> {
        stop_set_words(self.terms)
    }

    /// The stop words of a comma-separated list: each field trimmed, empty
    /// fields dropped, repeats kept once. A list that names none gives `None`.
    pub fn from_csv(csv: &str) -> (r: Option<Self>)
        ensures
            r is None <==> csv_stop_words(csv@).is_empty(),
            r matches Some(w) ==> w.words() == csv_stop_words(csv@),
    {
        let s = chars_of(csv);
        let n = s.len();
        let mut terms = stop_set_new();
        let mut cur: Vec<char> = Vec::new();
        let ghost mut done: Seq<Seq<char>> = Seq::empty();
        let mut i: usize = 0;
        while i < n
            invariant
                n == s@.len(),
                s@ == csv@,
                i <= n,
                done + fields_from(s@, i as int, cur@) == csv_fields(s@),
                forall|w: Seq<char>| #[trigger] stop_set_words(terms).contains(w) <==> is_listed(done, w),
            decreases n - i,
        {
            if s[i] == ',' {
                let ghost field = cur@;
                let ghost before = stop_set_words(terms);
                add_field(&mut terms, &cur);
                proof {
                    lemma_add_field(before, stop_set_words(terms), done, field);
                    assert(done.push(field) + fields_from(s@, i + 1, Seq::empty()) == csv_fields(s@));
                    done = done.push(field);
                }
                cur = Vec::new();
            } else {
                proof {
                    assert(fields_from(s@, i as int, cur@) == fields_from(s@, i + 1, cur@.push(s@[i as int])));
                }
                cur.push(s[i]);
            }
            i += 1;
        }
        let ghost field = cur@;
        let ghost before = stop_set_words(terms);
        add_field(&mut terms, &cur);
        proof {
            lemma_add_field(before, stop_set_words(terms), done, field);
            assert(done.push(field) == csv_fields(s@));
            assert(csv_stop_words(csv@) =~= stop_set_words(terms));
        }
        if stop_set_is_empty(&terms) {
            None
        } else {
            proof {
                assert(stop_set_words(terms) != Set::<Seq<char>>::empty());
                assert(!(csv_stop_words(csv@) =~= Set::<Seq<char>>::empty()));
            }
            Some(ScoreStopWords { terms })
        }
    }

    /// Whether `term` is one of the stop words, exactly.
    pub fn contains(&self, term: &str) -> (r: bool)
        ensures
            r == self.words().contains(term@),
    {
        stop_set_contains(&self.terms, term)
    }
}

} // verus!
