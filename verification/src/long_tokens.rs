//! Tokens longer than the byte ceiling: truncated, dropped or split on
//! grapheme cluster boundaries, and the positions of what is emitted.
use vstd::prelude::*;
use crate::spec::{LongTokenMode, LongTokenSpec, PositionGapMode, MIN_TOKEN_BYTES};
use crate::token::{Classification, Token};
use crate::text::{chars_of, string_from_chars};
use crate::unicode::{grapheme_lengths, length_sum, lemma_length_sum_mono, cluster_lengths};

verus! {

/// The number of bytes of `c` in UTF-8.
pub open spec fn utf8_len(c: char) -> nat {
    let u = c as u32;
    if u < 0x80 { 1 } else if u < 0x800 { 2 } else if u < 0x10000 { 3 } else { 4 }
}

/// The number of bytes of `s[a..b]` in UTF-8.
pub open spec fn bytes_of(s: Seq<char>, a: int, b: int) -> nat
    decreases b - a,
{
    if b <= a { 0 } else { bytes_of(s, a, b - 1) + utf8_len(s[b - 1]) }
}

/// The number of bytes of `c` in UTF-8.
pub fn char_bytes(c: char) -> (r: usize)
    ensures
        r == utf8_len(c),
{
    let u = c as u32;
    if u < 0x80 { 1 } else if u < 0x800 { 2 } else if u < 0x10000 { 3 } else { 4 }
}

/// More characters take no fewer bytes.
pub proof fn lemma_bytes_mono(s: Seq<char>, a: int, b: int, c: int)
    requires
        a <= b <= c,
    ensures
        bytes_of(s, a, b) <= bytes_of(s, a, c),
    decreases c - b,
{
    if b < c {
        lemma_bytes_mono(s, a, b, c - 1);
    }
}

/// The bytes of adjacent ranges add up.
pub proof fn lemma_bytes_split(s: Seq<char>, a: int, b: int, c: int)
    requires
        a <= b <= c,
    ensures
        bytes_of(s, a, c) == bytes_of(s, a, b) + bytes_of(s, b, c),
    decreases c - b,
{
    if b < c {
        lemma_bytes_split(s, a, b, c - 1);
    }
}

/// Each character takes at least one byte.
pub proof fn lemma_bytes_at_least_len(s: Seq<char>, a: int, b: int)
    requires
        a <= b,
    ensures
        bytes_of(s, a, b) >= b - a,
    decreases b - a,
{
    if a < b {
        lemma_bytes_at_least_len(s, a, b - 1);
    }
}

/// The number of bytes of `s[a..b]` in UTF-8.
pub fn byte_count(s: &Vec<char>, a: usize, b: usize) -> (r: usize)
    requires
        a <= b <= s@.len(),
        bytes_of(s@, a as int, b as int) <= usize::MAX,
    ensures
        r == bytes_of(s@, a as int, b as int),
{
    let mut total: usize = 0;
    let mut i = a;
    while i < b
        invariant
            a <= i <= b <= s@.len(),
            total == bytes_of(s@, a as int, i as int),
            bytes_of(s@, a as int, b as int) <= usize::MAX,
        decreases b - i,
    {
        proof {
            lemma_bytes_mono(s@, a as int, i + 1, b as int);
        }
        total = total + char_bytes(s[i]);
        i += 1;
    }
    total
}

/// The end of the longest prefix of `s[start..]` that fits in `max_bytes`.
pub open spec fn fits_from(s: Seq<char>, start: int, end: int, max_bytes: int) -> bool {
    start <= end <= s.len() && bytes_of(s, start, end) <= max_bytes
        && (end == s.len() || bytes_of(s, start, end + 1) > max_bytes)
}

/// The end of the longest run of characters from `start` that fits in
/// `max_bytes` bytes, looking from `end` on.
pub open spec fn greedy_end(s: Seq<char>, start: int, end: int, max_bytes: int) -> int
    decreases s.len() - end,
{
    if 0 <= end < s.len() && bytes_of(s, start, end + 1) <= max_bytes {
        greedy_end(s, start, end + 1, max_bytes)
    } else {
        end
    }
}

/// Cut `s` after `start` at the last character boundary within `max_bytes`
/// bytes: used when a single grapheme cluster is larger than the ceiling.
pub fn scalar_end(s: &Vec<char>, start: usize, max_bytes: usize) -> (end: usize)
    requires
        start < s@.len(),
        max_bytes >= MIN_TOKEN_BYTES,
    ensures
        start < end,
        fits_from(s@, start as int, end as int, max_bytes as int),
        end == greedy_end(s@, start as int, start as int, max_bytes as int),
{
    let mut end = start;
    let mut used: usize = 0;
    while end < s.len() && char_bytes(s[end]) <= max_bytes - used
        invariant
            start <= end <= s@.len(),
            used == bytes_of(s@, start as int, end as int),
            used <= max_bytes,
            greedy_end(s@, start as int, start as int, max_bytes as int) == greedy_end(s@, start as int, end as int, max_bytes as int),
        decreases s@.len() - end,
    {
        used = used + char_bytes(s[end]);
        end += 1;
    }
    proof {
        if end == start {
            assert(utf8_len(s@[start as int]) <= 4);
        }
    }
    end
}

/// The end of the longest run of whole clusters, of the given lengths, from
/// `start` that fits in `max_bytes` bytes.
pub open spec fn cluster_prefix_end(s: Seq<char>, start: int, lengths: Seq<usize>, k: int, end: int, max_bytes: int) -> int
    decreases lengths.len() - k,
{
    if k >= lengths.len() || k < 0 || end + lengths[k] > s.len()
        || bytes_of(s, start, end + lengths[k]) > max_bytes {
        end
    } else {
        cluster_prefix_end(s, start, lengths, k + 1, end + lengths[k], max_bytes)
    }
}

/// The first `cap` characters of `s` are ASCII other than CR, and a cut at
/// `cap` lies on a cluster boundary (end of text, or an ASCII character).
pub open spec fn ascii_cut(s: Seq<char>, from: int, cap: int) -> bool {
    &&& forall|i: int| from <= i < cap ==> (#[trigger] s[i] as u32) < 0x80 && s[i] != '\r'
    &&& (cap == s.len() || (s[cap] as u32) < 0x80)
}

/// Where truncation cuts `s`: at the byte ceiling when the text up to it
/// is plain ASCII, else after the longest run of whole clusters that fits.
pub open spec fn truncate_spec(s: Seq<char>, max_bytes: int) -> int {
    let total = bytes_of(s, 0, s.len() as int);
    let cap = if max_bytes < total { max_bytes } else { total as int };
    if cap <= s.len() && ascii_cut(s, 0, cap) {
        cap
    } else {
        cluster_prefix_end(s, 0, grapheme_lengths(s), 0, 0, max_bytes)
    }
}

/// Whether `s[from..cap]` is ASCII without CR and a cut at `cap` is safe.
fn ascii_cut_at(s: &Vec<char>, from: usize, cap: usize) -> (r: bool)
    requires
        from <= cap <= s@.len(),
    ensures
        r == ascii_cut(s@, from as int, cap as int),
{
    let mut i = from;
    while i < cap
        invariant
            from <= i <= cap <= s@.len(),
            forall|k: int| from <= k < i ==> (#[trigger] s@[k] as u32) < 0x80 && s@[k] != '\r',
        decreases cap - i,
    {
        let c = s[i];
        if (c as u32) >= 0x80 || c == '\r' {
            return false;
        }
        i += 1;
    }
    cap == s.len() || (s[cap] as u32) < 0x80
}

/// Where truncation cuts `s` (a character index).
pub fn truncate_end(s: &Vec<char>, max_bytes: usize) -> (end: usize)
    requires
        bytes_of(s@, 0, s@.len() as int) <= usize::MAX,
    ensures
        end == truncate_spec(s@, max_bytes as int),
        end <= s@.len(),
        bytes_of(s@, 0, end as int) <= max_bytes,
{
    let total = byte_count(s, 0, s.len());
    let cap = if max_bytes < total { max_bytes } else { total };
    if cap <= s.len() && ascii_cut_at(s, 0, cap) {
        proof {
            assert forall|i: int| 0 <= i <= cap implies bytes_of(s@, 0, i) == i by {
                lemma_ascii_bytes(s@, i);
            }
        }
        return cap;
    }
    let lengths = cluster_lengths(s);
    let slen = s.len();
    let mut end: usize = 0;
    let mut k: usize = 0;
    proof {
        assert(truncate_spec(s@, max_bytes as int) == cluster_prefix_end(s@, 0, grapheme_lengths(s@), 0, 0, max_bytes as int));
    }
    while k < lengths.len()
        invariant
            slen == s@.len(),
            truncate_spec(s@, max_bytes as int) == cluster_prefix_end(s@, 0, grapheme_lengths(s@), 0, 0, max_bytes as int),
            k <= lengths@.len(),
            lengths@ == grapheme_lengths(s@),
            forall|j: int| 0 <= j < lengths@.len() ==> #[trigger] lengths@[j] > 0,
            length_sum(lengths@, lengths@.len() as int) == s@.len(),
            end == length_sum(lengths@, k as int),
            end <= s@.len(),
            bytes_of(s@, 0, end as int) <= max_bytes,
            cluster_prefix_end(s@, 0, lengths@, 0, 0, max_bytes as int)
                == cluster_prefix_end(s@, 0, lengths@, k as int, end as int, max_bytes as int),
            bytes_of(s@, 0, s@.len() as int) <= usize::MAX,
        decreases lengths@.len() - k,
    {
        let g = lengths[k];
        proof {
            lemma_length_sum_mono(lengths@, k + 1, lengths@.len() as int);
            assert(length_sum(lengths@, k + 1) == length_sum(lengths@, k as int) + lengths@[k as int]);
            assert(end + g <= s@.len());
            lemma_bytes_mono(s@, 0, (end + g) as int, s@.len() as int);
        }
        if byte_count(s, 0, end + g) > max_bytes {
            proof {
                assert(cluster_prefix_end(s@, 0, lengths@, k as int, end as int, max_bytes as int) == end);
            }
            return end;
        }
        end = end + g;
        k += 1;
    }
    end
}

/// Plain ASCII characters take one byte each.
proof fn lemma_ascii_bytes(s: Seq<char>, i: int)
    requires
        0 <= i <= s.len(),
        forall|k: int| 0 <= k < i ==> (#[trigger] s[k] as u32) < 0x80,
    ensures
        bytes_of(s, 0, i) == i,
    decreases i,
{
    if i > 0 {
        lemma_ascii_bytes(s, i - 1);
    }
}

/// Where the cluster loop of a split cuts: whole clusters of lengths
/// `lens[k..]` are added to the chunk `[start, end)` while it fits; a first
/// cluster larger than the ceiling is cut at a character boundary.
pub open spec fn cluster_split(s: Seq<char>, start: int, max_bytes: int, lens: Seq<usize>, k: int, end: int) -> (int, Option<int>)
    decreases lens.len() - k,
{
    if k < 0 || k >= lens.len() {
        (end, None)
    } else {
        let g = lens[k] as int;
        let with = bytes_of(s, start, end + g);
        if end == start && with > max_bytes {
            let e = greedy_end(s, start, start, max_bytes);
            (e, Some(start + g - e))
        } else if with > max_bytes {
            (end, Some(g))
        } else {
            cluster_split(s, start, max_bytes, lens, k + 1, end + g)
        }
    }
}

/// Where the split chunk that starts at `start` ends, and how many
/// characters of a cluster the next chunk starts with: the chunk first takes
/// the cluster (or rest of one) `first` when it fits; then, when the text
/// that still fits is plain ASCII cut at a safe place, as much of it as
/// fits, else whole clusters while they fit.
pub open spec fn split_spec(s: Seq<char>, start: int, max_bytes: int, first: Option<usize>) -> (int, Option<int>) {
    let len = s.len() as int;
    if first is Some && bytes_of(s, start, start + first->0) > max_bytes {
        let e = greedy_end(s, start, start, max_bytes);
        (e, Some(start + first->0 - e))
    } else {
        let end = if first is Some { start + first->0 } else { start };
        let used = bytes_of(s, start, end);
        let after = bytes_of(s, end, len);
        let room = max_bytes - used;
        let window = if room < after { room } else { after as int };
        if window <= len - end && ascii_cut(s, end, end + window) && end + window > start {
            (end + window, None)
        } else {
            cluster_split(s, start, max_bytes, grapheme_lengths(s.subrange(end, len)), 0, end)
        }
    }
}

/// Where the split chunk that starts at `start` ends, and how many
/// characters of a cluster the next chunk starts with. `first` is the
/// cluster (or the rest of an oversized one) the chunk starts with, when
/// known. A cluster larger than the ceiling is cut at a character boundary
/// and the rest carried over.
pub fn split_end(s: &Vec<char>, start: usize, max_bytes: usize, first: Option<usize>) -> (r: (usize, Option<usize>))
    requires
        start < s@.len(),
        max_bytes >= MIN_TOKEN_BYTES,
        bytes_of(s@, 0, s@.len() as int) <= usize::MAX,
        first matches Some(f) ==> 0 < f <= s@.len() - start,
    ensures
        start < r.0 <= s@.len(),
        bytes_of(s@, start as int, r.0 as int) <= max_bytes,
        r.1 matches Some(n) ==> 0 < n <= s@.len() - r.0,
        (r.0 as int, match r.1 { Some(n) => Some(n as int), None => None::<int> })
            == split_spec(s@, start as int, max_bytes as int, first),
{
    proof {
        lemma_bytes_split(s@, 0, start as int, s@.len() as int);
        lemma_bytes_mono(s@, start as int, start as int, s@.len() as int);
    }
    let len = s.len();
    let mut end = start;
    match first {
        Some(f) => {
            proof {
                lemma_bytes_mono(s@, start as int, (start + f) as int, len as int);
            }
            if byte_count(s, start, start + f) > max_bytes {
                let e = scalar_end(s, start, max_bytes);
                proof {
                    if e >= start + f {
                        lemma_bytes_mono(s@, start as int, (start + f) as int, e as int);
                    }
                }
                return (e, Some(start + f - e));
            }
            end = start + f;
        },
        None => {},
    }
    proof {
        lemma_bytes_split(s@, start as int, end as int, len as int);
        assert(bytes_of(s@, start as int, start as int) == 0);
        assert(bytes_of(s@, start as int, end as int) <= max_bytes);
    }
    let used = byte_count(s, start, end);
    let after = byte_count(s, end, len);
    let room = max_bytes - used;
    let window = if room < after { room } else { after };
    if window <= len - end && ascii_cut_at(s, end, end + window) {
        proof {
            lemma_ascii_window_bytes(s@, end as int, window as int);
            lemma_bytes_split(s@, start as int, end as int, (end + window) as int);
        }
        if end + window > start {
            return (end + window, None);
        }
    }
    let lengths = cluster_lengths(&slice_from(s, end));
    let ghost tail = s@.subrange(end as int, len as int);
    let base = end;
    let mut k: usize = 0;
    let ghost target = split_spec(s@, start as int, max_bytes as int, first);
    proof {
        assert(target == cluster_split(s@, start as int, max_bytes as int, lengths@, 0, base as int));
    }
    while k < lengths.len()
        invariant
            len == s@.len(),
            lengths@ == grapheme_lengths(tail),
            target == cluster_split(s@, start as int, max_bytes as int, lengths@, k as int, end as int),
            target == split_spec(s@, start as int, max_bytes as int, first),
            start <= base <= end <= len,
            k <= lengths@.len(),
            forall|j: int| 0 <= j < lengths@.len() ==> #[trigger] lengths@[j] > 0,
            length_sum(lengths@, lengths@.len() as int) == len - base,
            end == base + length_sum(lengths@, k as int),
            max_bytes >= MIN_TOKEN_BYTES,
            bytes_of(s@, start as int, end as int) <= max_bytes,
            bytes_of(s@, start as int, len as int) <= usize::MAX,
            start < len,
            k > 0 || base > start || end == start,
        decreases lengths@.len() - k,
    {
        let g = lengths[k];
        proof {
            lemma_length_sum_mono(lengths@, k + 1, lengths@.len() as int);
            lemma_bytes_mono(s@, start as int, (end + g) as int, len as int);
        }
        let with = byte_count(s, start, end + g);
        proof {
            assert(lengths@[k as int] == g);
            assert(cluster_split(s@, start as int, max_bytes as int, lengths@, k as int, end as int) == {
                let gi = g as int;
                if end == start && with > max_bytes {
                    let e = greedy_end(s@, start as int, start as int, max_bytes as int);
                    (e, Some(start + gi - e))
                } else if with > max_bytes {
                    (end as int, Some(gi))
                } else {
                    cluster_split(s@, start as int, max_bytes as int, lengths@, k + 1, end + gi)
                }
            });
        }
        if end == start && with > max_bytes {
            let e = scalar_end(s, start, max_bytes);
            proof {
                if e >= start + g {
                    lemma_bytes_mono(s@, start as int, (start + g) as int, e as int);
                }
                assert(target == (e as int, Some((start + g - e) as int)));
            }
            return (e, Some(start + g - e));
        }
        if with > max_bytes {
            proof {
                assert(target == (end as int, Some(g as int)));
            }
            return (end, Some(g));
        }
        end = end + g;
        k += 1;
    }
    proof {
        assert(end == len);
    }
    (end, None)
}

/// A window of plain ASCII characters takes one byte each.
proof fn lemma_ascii_window_bytes(s: Seq<char>, a: int, w: int)
    requires
        0 <= a,
        0 <= w,
        a + w <= s.len(),
        forall|k: int| a <= k < a + w ==> (#[trigger] s[k] as u32) < 0x80,
    ensures
        bytes_of(s, a, a + w) == w,
    decreases w,
{
    if w > 0 {
        lemma_ascii_window_bytes(s, a, w - 1);
    }
}

/// The characters of `s` from `a` on.
fn slice_from(s: &Vec<char>, a: usize) -> (r: Vec<char>)
    requires
        a <= s@.len(),
    ensures
        r@ == s@.subrange(a as int, s@.len() as int),
{
    let mut out: Vec<char> = Vec::new();
    let mut i = a;
    while i < s.len()
        invariant
            a <= i <= s@.len(),
            out@ == s@.subrange(a as int, i as int),
        decreases s@.len() - i,
    {
        out.push(s[i]);
        i += 1;
        proof {
            assert(out@ == s@.subrange(a as int, i as int));
        }
    }
    out
}

/// The characters of `s` in `[a, b)`.
fn slice_range(s: &Vec<char>, a: usize, b: usize) -> (r: Vec<char>)
    requires
        a <= b <= s@.len(),
    ensures
        r@ == s@.subrange(a as int, b as int),
{
    let mut out: Vec<char> = Vec::new();
    let mut i = a;
    while i < b
        invariant
            a <= i <= b <= s@.len(),
            out@ == s@.subrange(a as int, i as int),
        decreases b - i,
    {
        out.push(s[i]);
        i += 1;
        proof {
            assert(out@ == s@.subrange(a as int, i as int));
        }
    }
    out
}

/// A token being split, and where its next chunk starts.
struct PendingToken {
    chars: Vec<char>,
    pos: u32,
    classification: crate::token::Classification,
    start: usize,
    next_cluster: Option<usize>,
}

/// Applies the long-token rule and the position mode to a stream of tokens.
pub struct LongTokenIter {
    inner: Vec<Token>,
    inner_idx: usize,
    spec: LongTokenSpec,
    pending: Option<PendingToken>,
    position_gaps: PositionGapMode,
    next_collapsed_pos: u32,
    split_position_offset: u32,
    /// A position left `u32`; nothing more is produced.
    halted: bool,
}

/// A piece of output before its position is given: its text, the position
/// of the token it comes from, its kind, whether it comes from a split, and
/// whether it continues a split token.
pub struct Chunk {
    pub text: Seq<char>,
    pub pos: u32,
    pub classification: Classification,
    pub came_from_split: bool,
    pub continuation: bool,
}

/// The chunks a split token yields from `start` on, `first` being the
/// cluster (or rest of one) the next chunk starts with, when known.
pub open spec fn split_chunks(s: Seq<char>, pos: u32, class: Classification, max_bytes: int, start: int, first: Option<usize>) -> Seq<Chunk>
    decreases s.len() - start,
{
    if start < 0 || start >= s.len() {
        Seq::empty()
    } else {
        let (e, nx) = split_spec(s, start, max_bytes, first);
        if e <= start || e > s.len() {
            Seq::empty()
        } else {
            let chunk = Chunk { text: s.subrange(start, e), pos, classification: class,
                came_from_split: start != 0 || e < s.len(), continuation: start != 0 };
            let next_first = match nx { Some(n) => if 0 <= n <= usize::MAX { Some(n as usize) } else { None }, None => None };
            seq![chunk] + split_chunks(s, pos, class, max_bytes, e, next_first)
        }
    }
}

/// A token as plain values: its text, position, kind and split mark.
pub open spec fn token_model(t: Token) -> (Seq<char>, u32, Classification, bool) {
    (t.text@, t.pos, t.classification, t.came_from_split)
}

/// The models of a list of tokens.
pub open spec fn token_models(v: Seq<Token>) -> Seq<(Seq<char>, u32, Classification, bool)> {
    v.map_values(|t: Token| token_model(t))
}

/// The chunks one input token yields under the long-token rule: the token
/// itself when it fits; else nothing (discard), its truncation, or its
/// split chunks. A token of more than a quarter of `usize::MAX` characters
/// yields nothing.
pub open spec fn token_chunks(t: (Seq<char>, u32, Classification, bool), spec: LongTokenSpec) -> Seq<Chunk> {
    let s = t.0;
    let max = spec.max_bytes as int;
    if s.len() > usize::MAX / 4 {
        Seq::empty()
    } else if bytes_of(s, 0, s.len() as int) <= max {
        seq![Chunk { text: s, pos: t.1, classification: t.2, came_from_split: t.3, continuation: false }]
    } else {
        match spec.mode {
            LongTokenMode::Discard => Seq::empty(),
            LongTokenMode::Truncate => {
                let e = truncate_spec(s, max);
                if e <= 0 {
                    Seq::empty()
                } else {
                    seq![Chunk { text: s.subrange(0, e), pos: t.1, classification: t.2,
                        came_from_split: t.3, continuation: false }]
                }
            },
            LongTokenMode::Split => split_chunks(s, t.1, t.2, max, 0, None),
        }
    }
}

/// The chunks of the input tokens from index `i` on.
pub open spec fn chunks_from(inner: Seq<(Seq<char>, u32, Classification, bool)>, i: int, spec: LongTokenSpec) -> Seq<Chunk>
    decreases inner.len() - i,
{
    if i < 0 || i >= inner.len() { Seq::empty() } else { token_chunks(inner[i], spec) + chunks_from(inner, i + 1, spec) }
}

/// The position of the next chunk and the split offset and collapsed
/// counter after it, or `None` when the position would leave `u32`.
pub open spec fn place_one(gaps: PositionGapMode, offset: u32, counter: u32, pos: u32, continuation: bool) -> Option<(u32, u32, u32)> {
    match gaps {
        PositionGapMode::Preserve => if continuation && offset == u32::MAX {
            None
        } else {
            let o = if continuation { offset + 1 } else { offset as int };
            if pos + o > u32::MAX { None } else { Some(((pos + o) as u32, o as u32, counter)) }
        },
        PositionGapMode::Collapse => if counter == u32::MAX { None } else { Some((counter, offset, (counter + 1) as u32)) },
    }
}

/// The texts, positions, kinds and split marks of the tokens the chunks
/// become, up to the first position that would leave `u32`.
pub open spec fn placed(chunks: Seq<Chunk>, gaps: PositionGapMode, offset: u32, counter: u32)
    -> Seq<(Seq<char>, u32, Classification, bool)>
    decreases chunks.len(),
{
    if chunks.len() == 0 {
        Seq::empty()
    } else {
        let c = chunks[0];
        match place_one(gaps, offset, counter, c.pos, c.continuation) {
            None => Seq::empty(),
            Some((p, o, n)) => seq![(c.text, p, c.classification, c.came_from_split)]
                + placed(chunks.drop_first(), gaps, o, n),
        }
    }
}

/// The tokens the long-token rule and the position mode make of `inner`.
pub open spec fn long_token_output(inner: Seq<(Seq<char>, u32, Classification, bool)>, spec: LongTokenSpec, gaps: PositionGapMode)
    -> Seq<(Seq<char>, u32, Classification, bool)> {
    placed(chunks_from(inner, 0, spec), gaps, 0, 0)
}

/// Placing a chunk in front of others places it first.
proof fn lemma_placed_cons(c: Chunk, rest: Seq<Chunk>, gaps: PositionGapMode, offset: u32, counter: u32)
    ensures
        placed(seq![c] + rest, gaps, offset, counter) == match place_one(gaps, offset, counter, c.pos, c.continuation) {
            None => Seq::empty(),
            Some((p, o, n)) => seq![(c.text, p, c.classification, c.came_from_split)] + placed(rest, gaps, o, n),
        },
{
    let all = seq![c] + rest;
    assert(all.len() > 0);
    assert(all[0] == c);
    assert(all.drop_first() == rest);
}

/// The chunks from index `i` on depend on the tokens from `i` on alone.
proof fn lemma_chunks_from_same(a: Seq<(Seq<char>, u32, Classification, bool)>, b: Seq<(Seq<char>, u32, Classification, bool)>, i: int, spec: LongTokenSpec)
    requires
        a.len() == b.len(),
        forall|k: int| i <= k < a.len() ==> #[trigger] a[k] == b[k],
    ensures
        chunks_from(a, i, spec) == chunks_from(b, i, spec),
    decreases a.len() - i,
{
    if 0 <= i < a.len() {
        lemma_chunks_from_same(a, b, i + 1, spec);
    }
}

/// Every token of a list has a non-empty text.
pub open spec fn texts_nonempty(ms: Seq<(Seq<char>, u32, Classification, bool)>) -> bool {
    forall|k: int| 0 <= k < ms.len() ==> (#[trigger] ms[k]).0.len() > 0
}

/// The cluster loop of truncation never passes the end of the text.
proof fn lemma_cluster_prefix_end_bound(s: Seq<char>, start: int, lengths: Seq<usize>, k: int, end: int, max_bytes: int)
    requires
        0 <= end <= s.len(),
    ensures
        end <= cluster_prefix_end(s, start, lengths, k, end, max_bytes) <= s.len(),
    decreases lengths.len() - k,
{
    if !(k >= lengths.len() || k < 0 || end + lengths[k] > s.len() || bytes_of(s, start, end + lengths[k]) > max_bytes) {
        lemma_cluster_prefix_end_bound(s, start, lengths, k + 1, end + lengths[k], max_bytes);
    }
}

/// Split chunks are never empty.
proof fn lemma_split_chunks_nonempty(s: Seq<char>, pos: u32, class: Classification, max_bytes: int, start: int, first: Option<usize>)
    ensures
        forall|k: int| 0 <= k < split_chunks(s, pos, class, max_bytes, start, first).len()
            ==> (#[trigger] split_chunks(s, pos, class, max_bytes, start, first)[k]).text.len() > 0,
    decreases s.len() - start,
{
    let r = split_chunks(s, pos, class, max_bytes, start, first);
    if 0 <= start < s.len() {
        let (e, nx) = split_spec(s, start, max_bytes, first);
        if start < e <= s.len() {
            let next_first = match nx { Some(n) => if 0 <= n <= usize::MAX { Some(n as usize) } else { None }, None => None };
            lemma_split_chunks_nonempty(s, pos, class, max_bytes, e, next_first);
            let rest = split_chunks(s, pos, class, max_bytes, e, next_first);
            assert forall|k: int| 0 <= k < r.len() implies (#[trigger] r[k]).text.len() > 0 by {
                if k > 0 {
                    assert(r[k] == rest[k - 1]);
                }
            }
        }
    }
}

/// A token with a non-empty text yields chunks with non-empty texts.
proof fn lemma_token_chunks_nonempty(t: (Seq<char>, u32, Classification, bool), spec: LongTokenSpec)
    requires
        t.0.len() > 0,
    ensures
        forall|k: int| 0 <= k < token_chunks(t, spec).len() ==> (#[trigger] token_chunks(t, spec)[k]).text.len() > 0,
{
    let s = t.0;
    let max = spec.max_bytes as int;
    if s.len() <= usize::MAX / 4 && bytes_of(s, 0, s.len() as int) > max {
        match spec.mode {
            LongTokenMode::Truncate => {
                let total = bytes_of(s, 0, s.len() as int);
                let cap = if max < total { max } else { total as int };
                if !(cap <= s.len() && ascii_cut(s, 0, cap)) {
                    lemma_cluster_prefix_end_bound(s, 0, grapheme_lengths(s), 0, 0, max);
                }
            },
            LongTokenMode::Split => lemma_split_chunks_nonempty(s, t.1, t.2, max, 0, None),
            LongTokenMode::Discard => {},
        }
    }
}

/// Tokens with non-empty texts yield chunks with non-empty texts.
proof fn lemma_chunks_from_nonempty(inner: Seq<(Seq<char>, u32, Classification, bool)>, i: int, spec: LongTokenSpec)
    requires
        texts_nonempty(inner),
    ensures
        forall|k: int| 0 <= k < chunks_from(inner, i, spec).len() ==> (#[trigger] chunks_from(inner, i, spec)[k]).text.len() > 0,
    decreases inner.len() - i,
{
    if 0 <= i < inner.len() {
        lemma_token_chunks_nonempty(inner[i], spec);
        lemma_chunks_from_nonempty(inner, i + 1, spec);
        let a = token_chunks(inner[i], spec);
        let b = chunks_from(inner, i + 1, spec);
        assert forall|k: int| 0 <= k < (a + b).len() implies (#[trigger] (a + b)[k]).text.len() > 0 by {
            if k >= a.len() {
                assert((a + b)[k] == b[k - a.len()]);
            }
        }
    }
}

/// Placing chunks with non-empty texts gives tokens with non-empty texts.
proof fn lemma_placed_nonempty(chunks: Seq<Chunk>, gaps: PositionGapMode, offset: u32, counter: u32)
    requires
        forall|k: int| 0 <= k < chunks.len() ==> (#[trigger] chunks[k]).text.len() > 0,
    ensures
        texts_nonempty(placed(chunks, gaps, offset, counter)),
    decreases chunks.len(),
{
    if chunks.len() > 0 {
        let c = chunks[0];
        match place_one(gaps, offset, counter, c.pos, c.continuation) {
            None => {},
            Some((p, o, n)) => {
                let rest = chunks.drop_first();
                assert forall|k: int| 0 <= k < rest.len() implies (#[trigger] rest[k]).text.len() > 0 by {
                    assert(rest[k] == chunks[k + 1]);
                }
                lemma_placed_nonempty(rest, gaps, o, n);
                let head = seq![(c.text, p, c.classification, c.came_from_split)];
                let tail = placed(rest, gaps, o, n);
                assert forall|k: int| 0 <= k < (head + tail).len() implies (#[trigger] (head + tail)[k]).0.len() > 0 by {
                    if k > 0 {
                        assert((head + tail)[k] == tail[k - 1]);
                    }
                }
            },
        }
    }
}

/// The long-token rule keeps texts non-empty: tokens with non-empty texts
/// come out with non-empty texts (a token left empty passes through as it is).
pub proof fn lemma_long_token_output_nonempty(inner: Seq<(Seq<char>, u32, Classification, bool)>, spec: LongTokenSpec, gaps: PositionGapMode)
    requires
        texts_nonempty(inner),
    ensures
        texts_nonempty(long_token_output(inner, spec, gaps)),
{
    lemma_chunks_from_nonempty(inner, 0, spec);
    lemma_placed_nonempty(chunks_from(inner, 0, spec), gaps, 0, 0);
}

impl LongTokenIter {
    /// The iterator's internal invariant.
    pub closed spec fn wf(&self) -> bool {
        &&& self.spec.max_bytes >= MIN_TOKEN_BYTES
        &&& self.inner_idx <= self.inner@.len()
        &&& self.pending matches Some(p) ==> p.start < p.chars@.len()
            && bytes_of(p.chars@, 0, p.chars@.len() as int) <= usize::MAX
            && (p.next_cluster matches Some(f) ==> 0 < f <= p.chars@.len() - p.start)
    }

    /// The byte ceiling.
    pub closed spec fn max_bytes(&self) -> usize {
        self.spec.max_bytes
    }

    /// Input tokens not yet looked at.
    pub closed spec fn inner_left(&self) -> nat {
        (self.inner@.len() - self.inner_idx) as nat
    }

    /// The chunks still to come from the token being split.
    pub closed spec fn pending_chunks(&self) -> Seq<Chunk> {
        match self.pending {
            Some(p) => split_chunks(p.chars@, p.pos, p.classification, self.spec.max_bytes as int, p.start as int, p.next_cluster),
            None => Seq::empty(),
        }
    }

    /// The texts, positions, kinds and split marks of the tokens still to come.
    pub closed spec fn remaining(&self) -> Seq<(Seq<char>, u32, Classification, bool)> {
        if self.halted {
            Seq::empty()
        } else {
            placed(self.pending_chunks() + chunks_from(token_models(self.inner@), self.inner_idx as int, self.spec),
                self.position_gaps, self.split_position_offset, self.next_collapsed_pos)
        }
    }

    /// Characters of the token being split not yet emitted.
    pub closed spec fn pending_left(&self) -> nat {
        match self.pending {
            Some(p) => (p.chars@.len() - p.start) as nat,
            None => 0,
        }
    }

    /// Handle the long tokens of `inner`.
    pub fn new(inner: Vec<Token>, spec: LongTokenSpec, position_gaps: PositionGapMode) -> (r: Self)
        requires
            spec.max_bytes >= MIN_TOKEN_BYTES,
        ensures
            r.wf(),
            r.max_bytes() == spec.max_bytes,
            r.remaining() == long_token_output(token_models(inner@), spec, position_gaps),
            r.offset() == 0,
    {
        let r = LongTokenIter {
            inner,
            inner_idx: 0,
            spec,
            pending: None,
            position_gaps,
            next_collapsed_pos: 0,
            split_position_offset: 0,
            halted: false,
        };
        assert(r.pending_chunks() + chunks_from(token_models(r.inner@), 0, spec) == chunks_from(token_models(r.inner@), 0, spec));
        r
    }

    /// Extra positions taken by split continuations so far.
    pub closed spec fn offset(&self) -> u32 {
        self.split_position_offset
    }

    /// Extra positions taken by split continuations so far.
    pub fn split_position_offset(&self) -> (r: u32)
        ensures
            r == self.offset(),
    {
        self.split_position_offset
    }

    /// The position the token gets: its own plus the split offset when gaps
    /// are preserved, else the next collapsed position. `None` when the
    /// position would leave `u32`.
    fn position(&mut self, mut token: Token, continuation: bool) -> (r: Option<Token>)
        ensures
            r matches Some(t) ==> t.text == token.text && t.classification == token.classification
                && t.came_from_split == token.came_from_split,
            final(self).inner == old(self).inner,
            final(self).inner_idx == old(self).inner_idx,
            final(self).spec == old(self).spec,
            final(self).pending == old(self).pending,
            final(self).position_gaps == old(self).position_gaps,
            match place_one(old(self).position_gaps, old(self).split_position_offset, old(self).next_collapsed_pos,
                token.pos, continuation) {
                None => r is None && final(self).halted,
                Some((p2, o2, c2)) => r matches Some(t) && t.pos == p2 && final(self).split_position_offset == o2
                    && final(self).next_collapsed_pos == c2 && final(self).halted == old(self).halted,
            },
    {
        match self.position_gaps {
            PositionGapMode::Preserve => {
                if continuation {
                    if self.split_position_offset == u32::MAX {
                        self.halted = true;
                        return None;
                    }
                    self.split_position_offset = self.split_position_offset + 1;
                }
                if token.pos > u32::MAX - self.split_position_offset {
                    self.halted = true;
                    return None;
                }
                token.pos = token.pos + self.split_position_offset;
            },
            PositionGapMode::Collapse => {
                if self.next_collapsed_pos == u32::MAX {
                    self.halted = true;
                    return None;
                }
                token.pos = self.next_collapsed_pos;
                self.next_collapsed_pos = self.next_collapsed_pos + 1;
            },
        }
        Some(token)
    }

    /// The next chunk of the token being split.
    fn next_split_chunk(&mut self) -> (r: Option<Token>)
        requires
            old(self).wf(),
            old(self).pending is Some,
            !old(self).halted,
        ensures
            final(self).wf(),
            final(self).inner == old(self).inner,
            final(self).inner_idx == old(self).inner_idx,
            final(self).spec == old(self).spec,
            final(self).pending_left() < old(self).pending_left(),
            r matches Some(t) ==> bytes_of(t.text@, 0, t.text@.len() as int) <= final(self).max_bytes()
                && t.text@.len() > 0,
            old(self).remaining() == match r {
                Some(t) => seq![(t.text@, t.pos, t.classification, t.came_from_split)] + final(self).remaining(),
                None => Seq::empty(),
            },
            r is None ==> final(self).halted,
    {
        let ghost o = *self;
        let mut pending = match self.pending.take() {
            Some(p) => p,
            None => return None,
        };
        let start = pending.start;
        let (end, next_cluster) = split_end(&pending.chars, start, self.spec.max_bytes, pending.next_cluster);
        let continuation = start != 0;
        let len = pending.chars.len();
        let was_split = continuation || end < len;
        let piece = slice_range(&pending.chars, start, end);
        proof {
            lemma_bytes_shift(pending.chars@, start as int, (end - start) as int);
        }
        let chunk = Token {
            text: string_from_chars(&piece),
            pos: pending.pos,
            classification: pending.classification,
            came_from_split: was_split,
        };
        let ghost c = Chunk { text: chunk.text@, pos: chunk.pos, classification: chunk.classification,
            came_from_split: was_split, continuation };
        let ghost p0 = pending;
        if end < len {
            pending.start = end;
            pending.next_cluster = next_cluster;
            self.pending = Some(pending);
        }
        proof {
            let max = self.spec.max_bytes as int;
            let tail = split_chunks(p0.chars@, p0.pos, p0.classification, max, end as int, next_cluster);
            assert(o.pending_chunks() == seq![c] + tail);
            if end < len {
                assert(self.pending_chunks() == tail);
            } else {
                assert(tail == Seq::<Chunk>::empty());
                assert(self.pending_chunks() == tail);
            }
            let rest = chunks_from(token_models(self.inner@), self.inner_idx as int, self.spec);
            assert(o.pending_chunks() + rest == seq![c] + (tail + rest));
            lemma_placed_cons(c, tail + rest, self.position_gaps, self.split_position_offset, self.next_collapsed_pos);
        }
        self.position(chunk, continuation)
    }

    /// The next token after the long-token rule and the position mode: no
    /// token it gives is longer than the byte ceiling.
    pub fn next(&mut self) -> (r: Option<Token>)
        requires
            old(self).wf(),
        ensures
            final(self).wf(),
            final(self).max_bytes() == old(self).max_bytes(),
            r matches Some(t) ==> bytes_of(t.text@, 0, t.text@.len() as int) <= final(self).max_bytes(),
            r is Some ==> final(self).inner_left() < old(self).inner_left()
                || (final(self).inner_left() == old(self).inner_left() && final(self).pending_left() < old(self).pending_left()),
            old(self).remaining() == match r {
                Some(t) => seq![(t.text@, t.pos, t.classification, t.came_from_split)] + final(self).remaining(),
                None => Seq::empty(),
            },
            r is None ==> final(self).remaining() == Seq::<(Seq<char>, u32, Classification, bool)>::empty(),
    {
        if self.halted {
            return None;
        }
        loop
            invariant
                self.wf(),
                !self.halted,
                old(self).remaining() == self.remaining(),
                self.spec == old(self).spec,
                self.inner@.len() == old(self).inner@.len(),
                self.inner_idx == old(self).inner_idx || (self.inner_idx > old(self).inner_idx),
                self.pending is Some ==> self.inner_idx > old(self).inner_idx || self.pending_left() <= old(self).pending_left(),
            decreases self.inner@.len() - self.inner_idx, if self.pending is Some { 1nat } else { 0nat },
        {
            if self.pending.is_some() {
                return self.next_split_chunk();
            }
            if self.inner_idx >= self.inner.len() {
                proof {
                    assert(self.pending_chunks() + chunks_from(token_models(self.inner@), self.inner_idx as int, self.spec)
                        == Seq::<Chunk>::empty());
                }
                return None;
            }
            let idx = self.inner_idx;
            let ghost before = *self;
            self.inner_idx = idx + 1;
            let token = self.take_inner(idx);
            proof {
                lemma_chunks_from_same(token_models(before.inner@), token_models(self.inner@), idx + 1, self.spec);
                assert(before.pending_chunks() == Seq::<Chunk>::empty());
                assert(token_models(before.inner@)[idx as int] == token_model(token));
                assert(chunks_from(token_models(before.inner@), idx as int, self.spec)
                    == token_chunks(token_model(token), self.spec) + chunks_from(token_models(self.inner@), idx + 1, self.spec));
                assert(before.pending_chunks() + chunks_from(token_models(before.inner@), idx as int, self.spec)
                    == token_chunks(token_model(token), self.spec) + chunks_from(token_models(self.inner@), idx + 1, self.spec));
            }
            let ghost rest = chunks_from(token_models(self.inner@), idx + 1, self.spec);
            let chars = chars_of(token.text.as_str());
            if chars.len() > usize::MAX / 4 {
                proof {
                    assert(token_chunks(token_model(token), self.spec) + rest == rest);
                    assert(self.pending_chunks() + rest == rest);
                }
                continue;
            }
            proof {
                lemma_bytes_at_most_four(chars@, 0, chars@.len() as int);
            }
            let size = byte_count(&chars, 0, chars.len());
            if size <= self.spec.max_bytes {
                proof {
                    let c = Chunk { text: token.text@, pos: token.pos, classification: token.classification,
                        came_from_split: token.came_from_split, continuation: false };
                    assert(token_chunks(token_model(token), self.spec) == seq![c]);
                    assert(self.pending_chunks() + rest == rest);
                    lemma_placed_cons(c, rest, self.position_gaps, self.split_position_offset, self.next_collapsed_pos);
                }
                return self.position(token, false);
            }
            match self.spec.mode {
                LongTokenMode::Discard => {
                    proof {
                        assert(token_chunks(token_model(token), self.spec) + rest == rest);
                        assert(self.pending_chunks() + rest == rest);
                    }
                    continue;
                },
                LongTokenMode::Truncate => {
                    let end = truncate_end(&chars, self.spec.max_bytes);
                    if end == 0 {
                        proof {
                            assert(token_chunks(token_model(token), self.spec) + rest == rest);
                            assert(self.pending_chunks() + rest == rest);
                        }
                        continue;
                    }
                    let kept = slice_range(&chars, 0, end);
                    proof {
                        lemma_bytes_shift(chars@, 0, end as int);
                        assert(chars@.subrange(0, end as int) == kept@);
                    }
                    let truncated = Token {
                        text: string_from_chars(&kept),
                        pos: token.pos,
                        classification: token.classification,
                        came_from_split: token.came_from_split,
                    };
                    proof {
                        let c = Chunk { text: truncated.text@, pos: token.pos, classification: token.classification,
                            came_from_split: token.came_from_split, continuation: false };
                        assert(token_chunks(token_model(token), self.spec) == seq![c]);
                        assert(self.pending_chunks() + rest == rest);
                        lemma_placed_cons(c, rest, self.position_gaps, self.split_position_offset, self.next_collapsed_pos);
                    }
                    return self.position(truncated, false);
                },
                LongTokenMode::Split => {
                    self.pending = Some(PendingToken {
                        chars,
                        pos: token.pos,
                        classification: token.classification,
                        start: 0,
                        next_cluster: None,
                    });
                    proof {
                        assert(self.pending_chunks() == token_chunks(token_model(token), self.spec));
                    }
                },
            }
        }
    }

    /// Moves the token at `idx` out of the input, leaving an empty one.
    fn take_inner(&mut self, idx: usize) -> (t: Token)
        requires
            idx < old(self).inner@.len(),
        ensures
            t == old(self).inner@[idx as int],
            final(self).inner@.len() == old(self).inner@.len(),
            forall|k: int| 0 <= k < old(self).inner@.len() && k != idx ==> #[trigger] final(self).inner@[k] == old(self).inner@[k],
            final(self).inner_idx == old(self).inner_idx,
            final(self).spec == old(self).spec,
            final(self).pending == old(self).pending,
            final(self).position_gaps == old(self).position_gaps,
            final(self).next_collapsed_pos == old(self).next_collapsed_pos,
            final(self).split_position_offset == old(self).split_position_offset,
            final(self).halted == old(self).halted,
    {
        let empty = Token { text: String::new(), pos: 0, classification: crate::token::Classification::Unknown, came_from_split: false };
        let mut slot = empty;
        std::mem::swap(&mut slot, &mut self.inner[idx]);
        slot
    }
}

/// Bytes of a range are the bytes of the same characters counted from zero
/// in the subrange.
proof fn lemma_bytes_shift(s: Seq<char>, a: int, i: int)
    requires
        0 <= a,
        0 <= i,
        a + i <= s.len(),
    ensures
        bytes_of(s.subrange(a, a + i), 0, i) == bytes_of(s, a, a + i),
    decreases i,
{
    if i > 0 {
        lemma_bytes_shift(s, a, i - 1);
        let t = s.subrange(a, a + i);
        let u = s.subrange(a, a + i - 1);
        assert forall|j: int| 0 <= j <= i - 1 implies bytes_of(t, 0, j) == bytes_of(u, 0, j) by {
            lemma_bytes_prefix_same(t, u, j);
        }
    }
}

/// Sequences that agree below `j` give the same bytes up to `j`.
proof fn lemma_bytes_prefix_same(t: Seq<char>, u: Seq<char>, j: int)
    requires
        0 <= j <= t.len(),
        j <= u.len(),
        forall|k: int| 0 <= k < j ==> t[k] == u[k],
    ensures
        bytes_of(t, 0, j) == bytes_of(u, 0, j),
    decreases j,
{
    if j > 0 {
        lemma_bytes_prefix_same(t, u, j - 1);
    }
}

/// Each character takes at most four bytes.
proof fn lemma_bytes_at_most_four(s: Seq<char>, a: int, b: int)
    requires
        a <= b,
    ensures
        bytes_of(s, a, b) <= 4 * (b - a),
    decreases b - a,
{
    if a < b {
        lemma_bytes_at_most_four(s, a, b - 1);
    }
}

// ---------------------------------------------------------------- the split law

/// `lens` cuts a text of `len` characters into clusters: every length is
/// positive and they add up to `len`.
pub open spec fn partitions(lens: Seq<usize>, len: int) -> bool {
    &&& forall|j: int| 0 <= j < lens.len() ==> #[trigger] lens[j] > 0
    &&& length_sum(lens, lens.len() as int) == len
}

/// The cluster lengths of every suffix of `s` cut that suffix into
/// clusters, as the segmenter's wrapper reports on each call.
pub open spec fn suffixes_segmented(s: Seq<char>) -> bool {
    forall|b: int| 0 <= b <= s.len()
        ==> partitions(#[trigger] grapheme_lengths(s.subrange(b, s.len() as int)), s.len() - b)
}

/// The texts of `cs`, one after another.
pub open spec fn chunk_texts(cs: Seq<Chunk>) -> Seq<char>
    decreases cs.len(),
{
    if cs.len() == 0 { Seq::empty() } else { cs[0].text + chunk_texts(cs.drop_first()) }
}

/// The greedy cut from `end` on stays within the text and the ceiling.
proof fn lemma_greedy_end(s: Seq<char>, start: int, end: int, max_bytes: int)
    requires
        0 <= start <= end <= s.len(),
        bytes_of(s, start, end) <= max_bytes,
    ensures
        end <= greedy_end(s, start, end, max_bytes) <= s.len(),
        bytes_of(s, start, greedy_end(s, start, end, max_bytes)) <= max_bytes,
    decreases s.len() - end,
{
    if 0 <= end < s.len() && bytes_of(s, start, end + 1) <= max_bytes {
        lemma_greedy_end(s, start, end + 1, max_bytes);
    }
}

/// A run of `g` characters from `start` too large for the ceiling is cut
/// strictly inside it, after at least one character.
proof fn lemma_oversized_cut(s: Seq<char>, start: int, g: int, max_bytes: int)
    requires
        0 <= start,
        0 < g,
        start + g <= s.len(),
        max_bytes >= MIN_TOKEN_BYTES,
        bytes_of(s, start, start + g) > max_bytes,
    ensures
        start < greedy_end(s, start, start, max_bytes) < start + g,
{
    assert(bytes_of(s, start, start) == 0);
    assert(bytes_of(s, start, start + 1) == utf8_len(s[start]));
    let e = greedy_end(s, start, start, max_bytes);
    assert(e == greedy_end(s, start, start + 1, max_bytes));
    lemma_greedy_end(s, start, start + 1, max_bytes);
    if e >= start + g {
        lemma_bytes_mono(s, start, start + g, e);
    }
}

/// The cluster loop of a split cuts after `start`, within the text, and
/// carries over no more than what is left.
proof fn lemma_cluster_split(s: Seq<char>, start: int, max_bytes: int, lens: Seq<usize>, k: int, base: int, end: int)
    requires
        0 <= start <= base <= end <= s.len(),
        start < s.len(),
        max_bytes >= MIN_TOKEN_BYTES,
        partitions(lens, s.len() - base),
        0 <= k <= lens.len(),
        end == base + length_sum(lens, k),
        bytes_of(s, start, end) <= max_bytes,
        k > 0 || base > start || end == start,
    ensures
        start < cluster_split(s, start, max_bytes, lens, k, end).0 <= s.len(),
        cluster_split(s, start, max_bytes, lens, k, end).1 matches Some(n)
            ==> 0 < n <= s.len() - cluster_split(s, start, max_bytes, lens, k, end).0,
    decreases lens.len() - k,
{
    if k < lens.len() {
        let g = lens[k] as int;
        assert(g > 0);
        lemma_length_sum_mono(lens, k + 1, lens.len() as int);
        assert(length_sum(lens, k + 1) == length_sum(lens, k) + lens[k]);
        if end == start && bytes_of(s, start, end + g) > max_bytes {
            lemma_oversized_cut(s, start, g, max_bytes);
        } else if bytes_of(s, start, end + g) > max_bytes {
        } else {
            lemma_cluster_split(s, start, max_bytes, lens, k + 1, base, end + g);
        }
    } else {
        assert(end == s.len());
    }
}

/// Each step of a split cuts after `start`, within the text, and carries
/// over no more than what is left.
proof fn lemma_split_spec(s: Seq<char>, start: int, max_bytes: int, first: Option<usize>)
    requires
        0 <= start < s.len(),
        max_bytes >= MIN_TOKEN_BYTES,
        first matches Some(f) ==> 0 < f <= s.len() - start,
        suffixes_segmented(s),
    ensures
        start < split_spec(s, start, max_bytes, first).0 <= s.len(),
        split_spec(s, start, max_bytes, first).1 matches Some(n)
            ==> 0 < n <= s.len() - split_spec(s, start, max_bytes, first).0,
{
    let len = s.len() as int;
    if first is Some && bytes_of(s, start, start + first->0) > max_bytes {
        lemma_oversized_cut(s, start, first->0 as int, max_bytes);
    } else {
        let end = if first is Some { start + first->0 } else { start };
        let used = bytes_of(s, start, end);
        let after = bytes_of(s, end, len);
        let room = max_bytes - used;
        let window = if room < after { room } else { after as int };
        if window <= len - end && ascii_cut(s, end, end + window) && end + window > start {
        } else {
            let lens = grapheme_lengths(s.subrange(end, len));
            assert(partitions(lens, len - end));
            assert(bytes_of(s, start, start) == 0);
            assert(length_sum(lens, 0) == 0);
            lemma_cluster_split(s, start, max_bytes, lens, 0, end, end);
        }
    }
}

/// The chunks a split yields from `start` on, read one after another, give
/// back the text from `start` on.
pub proof fn lemma_split_chunks_concatenate(
    s: Seq<char>,
    pos: u32,
    class: Classification,
    max_bytes: int,
    start: int,
    first: Option<usize>,
)
    requires
        0 <= start <= s.len(),
        max_bytes >= MIN_TOKEN_BYTES,
        first matches Some(f) ==> 0 < f <= s.len() - start,
        suffixes_segmented(s),
    ensures
        chunk_texts(split_chunks(s, pos, class, max_bytes, start, first)) == s.subrange(start, s.len() as int),
    decreases s.len() - start,
{
    if start < s.len() {
        lemma_split_spec(s, start, max_bytes, first);
        let (e, nx) = split_spec(s, start, max_bytes, first);
        let next_first = match nx {
            Some(n) => if 0 <= n <= usize::MAX { Some(n as usize) } else { None },
            None => None,
        };
        lemma_split_chunks_concatenate(s, pos, class, max_bytes, e, next_first);
        let cs = split_chunks(s, pos, class, max_bytes, start, first);
        assert(cs.drop_first() == split_chunks(s, pos, class, max_bytes, e, next_first));
        assert(cs[0].text == s.subrange(start, e));
        assert(s.subrange(start, s.len() as int) == s.subrange(start, e) + s.subrange(e, s.len() as int));
    } else {
        assert(s.subrange(start, s.len() as int) == Seq::<char>::empty());
    }
}

/// Under the split rule, the chunks a token yields, read one after another,
/// give back its text: a token that fits is one chunk, a longer one is cut
/// on cluster boundaries without losing or repeating a character.
pub proof fn lemma_split_token_concatenates(t: (Seq<char>, u32, Classification, bool), spec: LongTokenSpec)
    requires
        spec.mode is Split,
        spec.max_bytes >= MIN_TOKEN_BYTES,
        t.0.len() <= usize::MAX / 4,
        suffixes_segmented(t.0),
    ensures
        chunk_texts(token_chunks(t, spec)) == t.0,
{
    let cs = token_chunks(t, spec);
    if bytes_of(t.0, 0, t.0.len() as int) <= spec.max_bytes {
        assert(cs.drop_first() == Seq::<Chunk>::empty());
        assert(chunk_texts(Seq::<Chunk>::empty()) == Seq::<char>::empty());
        assert(t.0 + Seq::<char>::empty() == t.0);
    } else {
        lemma_split_chunks_concatenate(t.0, t.1, t.2, spec.max_bytes as int, 0, None);
        assert(t.0.subrange(0, t.0.len() as int) == t.0);
    }
}

} // verus!
