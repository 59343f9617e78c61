//! The Unicode tokenizer: UAX #29 words, plus the grapheme clusters
//! between words that the grapheme mode keeps.
use vstd::prelude::*;
use crate::spec::GraphemeMode;
use crate::token::{Classification, Token};
use crate::text::{chars_of, string_from_chars};
use crate::whitespace::{is_white_space, white_space};
use unicode_segmentation::UnicodeSegmentation;
use unicode_properties::UnicodeGeneralCategory;

verus! {

// ---------------------------------------------------------------- outside Unicode data

/// The words of a text on UAX #29 word boundaries that hold a letter or a
/// number, each as its first character's index and its length in characters.
pub uninterp spec fn uax_words(text: Seq<char>) -> Seq<(usize, usize)>;

/// The lengths, in characters, of the extended grapheme clusters of a text.
pub uninterp spec fn grapheme_lengths(text: Seq<char>) -> Seq<usize>;

/// Whether a text is one emoji of the emoji list.
pub uninterp spec fn emoji_known(s: Seq<char>) -> bool;

/// The general-category group of a character.
pub uninterp spec fn category_of(c: char) -> CategoryGroup;

/// The general-category groups of Unicode characters.
#[derive(Clone, Copy, PartialEq, Eq, Structural)]
pub enum CategoryGroup {
    Letter,
    Mark,
    Number,
    Punctuation,
    Symbol,
    Separator,
    Other,
}

/// The spans are non-empty, lie inside a text of length `len`, and come in
/// order without overlapping.
pub open spec fn spans_ok(spans: Seq<(usize, usize)>, len: int) -> bool {
    &&& forall|k: int| 0 <= k < spans.len() ==> (#[trigger] spans[k]).1 > 0 && spans[k].0 + spans[k].1 <= len
    &&& forall|j: int, k: int| 0 <= j < k < spans.len() ==> (#[trigger] spans[j]).0 + spans[j].1 <= (#[trigger] spans[k]).0
}

/// Sum of the first `k` lengths.
pub open spec fn length_sum(s: Seq<usize>, k: int) -> int
    decreases k,
{
    if k <= 0 { 0 } else { length_sum(s, k - 1) + s[k - 1] }
}

/// A longer prefix of non-negative lengths sums to no less.
pub proof fn lemma_length_sum_mono(s: Seq<usize>, i: int, j: int)
    requires
        0 <= i <= j <= s.len(),
    ensures
        length_sum(s, i) <= length_sum(s, j),
    decreases j - i,
{
    if i < j {
        lemma_length_sum_mono(s, i, j - 1);
    }
}

/// Calls `UnicodeSegmentation::unicode_word_indices` on `text` and gives
/// each word's character index and character count.
#[verifier::external_body]
fn word_spans(text: &str) -> (r: Vec<(usize, usize)>)
    ensures
        r@ == uax_words(text@),
        spans_ok(r@, text@.len() as int),
{
    text.unicode_word_indices().map(|(b, w)| (text[..b].chars().count(), w.chars().count())).collect()
}

/// Calls `UnicodeSegmentation::graphemes` (extended clusters) on the
/// characters of `s` and gives each cluster's character count.
#[verifier::external_body]
pub(crate) fn cluster_lengths(s: &Vec<char>) -> (r: Vec<usize>)
    ensures
        r@ == grapheme_lengths(s@),
        forall|k: int| 0 <= k < r@.len() ==> #[trigger] r@[k] > 0,
        length_sum(r@, r@.len() as int) == s@.len(),
{
    let text: String = s.iter().collect();
    text.graphemes(true).map(|g| g.chars().count()).collect()
}

/// Calls `emojis::get` on the characters of `s` and tells whether it found
/// an emoji.
#[verifier::external_body]
fn is_emoji(s: &Vec<char>) -> (r: bool)
    ensures
        r == emoji_known(s@),
{
    let text: String = s.iter().collect();
    emojis::get(&text).is_some()
}

/// Calls `UnicodeGeneralCategory::general_category_group` on `c`.
#[verifier::external_body]
fn category_group(c: char) -> (r: CategoryGroup)
    ensures
        r == category_of(c),
{
    match c.general_category_group() {
        unicode_properties::GeneralCategoryGroup::Letter => CategoryGroup::Letter,
        unicode_properties::GeneralCategoryGroup::Mark => CategoryGroup::Mark,
        unicode_properties::GeneralCategoryGroup::Number => CategoryGroup::Number,
        unicode_properties::GeneralCategoryGroup::Punctuation => CategoryGroup::Punctuation,
        unicode_properties::GeneralCategoryGroup::Symbol => CategoryGroup::Symbol,
        unicode_properties::GeneralCategoryGroup::Separator => CategoryGroup::Separator,
        unicode_properties::GeneralCategoryGroup::Other => CategoryGroup::Other,
    }
}

// ---------------------------------------------------------------- classification

/// Joiners and variation selectors, skipped when classifying a cluster.
pub open spec fn is_joiner(c: char) -> bool {
    c == '\u{200d}' || c == '\u{fe0e}' || c == '\u{fe0f}'
}

/// Scan of a cluster's characters from `i` on: `None` when one is
/// punctuation, a separator or other; else whether a symbol, and whether a
/// mark, was seen (joiners skipped).
pub open spec fn scan_cluster(g: Seq<char>, i: int, symbol: bool, mark: bool) -> Option<(bool, bool)>
    decreases g.len() - i,
{
    if i >= g.len() || i < 0 {
        Some((symbol, mark))
    } else if is_joiner(g[i]) {
        scan_cluster(g, i + 1, symbol, mark)
    } else {
        match category_of(g[i]) {
            CategoryGroup::Symbol => scan_cluster(g, i + 1, true, mark),
            CategoryGroup::Mark => scan_cluster(g, i + 1, symbol, true),
            CategoryGroup::Letter | CategoryGroup::Number => scan_cluster(g, i + 1, symbol, mark),
            _ => None,
        }
    }
}

/// The kind a grapheme cluster outside words is kept as, if any: emoji in
/// the emoji and retain modes; in the retain mode also clusters of symbols
/// (with letters, numbers and marks) and clusters with marks.
pub open spec fn cluster_class(mode: GraphemeMode, g: Seq<char>) -> Option<Classification> {
    match mode {
        GraphemeMode::Discard => None,
        GraphemeMode::Emoji => if emoji_known(g) { Some(Classification::Emoji) } else { None },
        GraphemeMode::Retain => if emoji_known(g) {
            Some(Classification::Emoji)
        } else {
            match scan_cluster(g, 0, false, false) {
                None => None,
                Some((symbol, mark)) => if symbol {
                    Some(Classification::Symbol)
                } else if mark {
                    Some(Classification::Grapheme)
                } else {
                    None
                },
            }
        },
    }
}

/// The kind a grapheme cluster outside words is kept as, if any.
fn classify_cluster(mode: GraphemeMode, g: &Vec<char>) -> (r: Option<Classification>)
    ensures
        r == cluster_class(mode, g@),
{
    match mode {
        GraphemeMode::Discard => None,
        GraphemeMode::Emoji => if is_emoji(g) { Some(Classification::Emoji) } else { None },
        GraphemeMode::Retain => {
            if is_emoji(g) {
                return Some(Classification::Emoji);
            }
            let mut symbol = false;
            let mut mark = false;
            let mut i: usize = 0;
            while i < g.len()
                invariant
                    i <= g@.len(),
                    mode == GraphemeMode::Retain,
                    !emoji_known(g@),
                    scan_cluster(g@, 0, false, false) == scan_cluster(g@, i as int, symbol, mark),
                decreases g@.len() - i,
            {
                let c = g[i];
                proof {
                    assert(g@[i as int] == c);
                }
                if c == '\u{200d}' || c == '\u{fe0e}' || c == '\u{fe0f}' {
                    i += 1;
                    continue;
                }
                let group = category_group(c);
                match group {
                    CategoryGroup::Symbol => symbol = true,
                    CategoryGroup::Mark => mark = true,
                    CategoryGroup::Letter | CategoryGroup::Number => {},
                    _ => {
                        proof {
                            assert(scan_cluster(g@, i as int, symbol, mark) == None::<(bool, bool)>);
                            assert(!emoji_known(g@));
                            assert(cluster_class(mode, g@) == None::<Classification>);
                        }
                        return None;
                    },
                }
                i += 1;
            }
            if symbol {
                Some(Classification::Symbol)
            } else if mark {
                Some(Classification::Grapheme)
            } else {
                None
            }
        },
    }
}

// ---------------------------------------------------------------- trimming

/// `c` is ASCII whitespace in the sense of `u8::is_ascii_whitespace`.
pub open spec fn ascii_white(c: char) -> bool {
    c == ' ' || c == '\t' || c == '\n' || c == '\u{c}' || c == '\r'
}

/// The segment starts with whitespace: an ASCII whitespace byte, or a
/// non-ASCII whitespace character.
pub open spec fn leading_white(s: Seq<char>, a: int, b: int) -> bool {
    a < b && (ascii_white(s[a]) || ((s[a] as u32) >= 0x80 && is_white_space(s[a])))
}

/// The first index of `[a, b)` whose character is not whitespace, or `b`.
pub open spec fn skip_white(s: Seq<char>, a: int, b: int) -> int
    decreases b - a,
{
    if a >= b { b } else if is_white_space(s[a]) { skip_white(s, a + 1, b) } else { a }
}

/// One past the last index of `[a, b)` whose character is not whitespace, or `a`.
pub open spec fn back_white(s: Seq<char>, a: int, b: int) -> int
    decreases b - a,
{
    if b <= a { a } else if is_white_space(s[b - 1]) { back_white(s, a, b - 1) } else { b }
}

/// The part of `[a, b)` a token keeps: a segment that starts with
/// whitespace is trimmed at both ends, any other is kept whole.
pub open spec fn trim_span(s: Seq<char>, a: int, b: int) -> (int, int) {
    if leading_white(s, a, b) {
        let lo = skip_white(s, a, b);
        (lo, back_white(s, lo, b))
    } else {
        (a, b)
    }
}

/// The segment `[a, b)` of `s` with whitespace trimmed from both ends.
fn trim_white(s: &Vec<char>, a: usize, b: usize) -> (r: (usize, usize))
    requires
        a <= b <= s@.len(),
    ensures
        a <= r.0 <= r.1 <= b,
        forall|k: int| a <= k < r.0 ==> is_white_space(#[trigger] s@[k]),
        forall|k: int| r.1 <= k < b ==> is_white_space(#[trigger] s@[k]),
        r.0 < r.1 ==> !is_white_space(s@[r.0 as int]) && !is_white_space(s@[r.1 - 1]),
        r.0 == skip_white(s@, a as int, b as int),
        r.1 == back_white(s@, r.0 as int, b as int),
{
    let mut lo = a;
    while lo < b && white_space(s[lo])
        invariant
            a <= lo <= b <= s@.len(),
            forall|k: int| a <= k < lo ==> is_white_space(#[trigger] s@[k]),
            skip_white(s@, a as int, b as int) == skip_white(s@, lo as int, b as int),
        decreases b - lo,
    {
        lo += 1;
    }
    let mut hi = b;
    while hi > lo && white_space(s[hi - 1])
        invariant
            lo <= hi <= b <= s@.len(),
            forall|k: int| hi <= k < b ==> is_white_space(#[trigger] s@[k]),
            back_white(s@, lo as int, b as int) == back_white(s@, lo as int, hi as int),
        decreases hi - lo,
    {
        hi -= 1;
    }
    (lo, hi)
}

/// Whether the segment `[a, b)` of `s` starts with whitespace.
fn has_leading_white(s: &Vec<char>, a: usize, b: usize) -> (r: bool)
    requires
        a <= b <= s@.len(),
    ensures
        r == leading_white(s@, a as int, b as int),
{
    if a >= b {
        return false;
    }
    let c = s[a];
    if c == ' ' || c == '\t' || c == '\n' || c == '\u{c}' || c == '\r' {
        return true;
    }
    (c as u32) >= 0x80 && white_space(c)
}

/// Whether every character of `s` in `[a, b)` is ASCII.
fn ascii_range(s: &Vec<char>, a: usize, b: usize) -> (r: bool)
    requires
        a <= b <= s@.len(),
    ensures
        r == forall|k: int| a <= k < b ==> (#[trigger] s@[k] as u32) < 0x80,
{
    let mut i = a;
    while i < b
        invariant
            a <= i <= b <= s@.len(),
            forall|k: int| a <= k < i ==> (#[trigger] s@[k] as u32) < 0x80,
        decreases b - i,
    {
        if (s[i] as u32) >= 0x80 {
            return false;
        }
        i += 1;
    }
    true
}

/// The characters of `s` in `[a, b)`.
fn slice_chars(s: &Vec<char>, a: usize, b: usize) -> (r: Vec<char>)
    requires
        a <= b <= s@.len(),
    ensures
        r@ == s@.subrange(a as int, b as int),
{
    let mut out: Vec<char> = Vec::new();
    let mut i = a;
    while i < b
        invariant
            a <= i <= b <= s@.len(),
            out@ == s@.subrange(a as int, i as int),
        decreases b - i,
    {
        out.push(s[i]);
        i += 1;
        proof {
            assert(out@ == s@.subrange(a as int, i as int));
        }
    }
    out
}

// ---------------------------------------------------------------- the token sequence

/// Every character of `s` in `[a, b)` is ASCII.
pub open spec fn ascii_span(s: Seq<char>, a: int, b: int) -> bool {
    forall|k: int| a <= k < b ==> (#[trigger] s[k] as u32) < 0x80
}

/// The tokens of the grapheme clusters of lengths `lens[i..]`, the first
/// starting at `off`: each cluster trimmed, and kept when its class says so.
pub open spec fn cluster_tokens(s: Seq<char>, mode: GraphemeMode, lens: Seq<usize>, i: int, off: int)
    -> Seq<(Seq<char>, Classification)>
    decreases lens.len() - i,
{
    if i < 0 || i >= lens.len() {
        Seq::empty()
    } else {
        let b = off + lens[i];
        let (ga, gb) = trim_span(s, off, b);
        let rest = cluster_tokens(s, mode, lens, i + 1, b);
        if ga >= gb {
            rest
        } else {
            match cluster_class(mode, s.subrange(ga, gb)) {
                Some(c) => seq![(s.subrange(ga, gb), c)] + rest,
                None => rest,
            }
        }
    }
}

/// The tokens of the gap `[a, b)` between words: its kept grapheme clusters.
/// In the emoji mode an ASCII gap is not looked at.
pub open spec fn gap_tokens(s: Seq<char>, mode: GraphemeMode, a: int, b: int) -> Seq<(Seq<char>, Classification)> {
    if mode == GraphemeMode::Retain || !ascii_span(s, a, b) {
        cluster_tokens(s, mode, grapheme_lengths(s.subrange(a, b)), 0, a)
    } else {
        Seq::empty()
    }
}

/// The kind of the word `[a, b)`: an emoji when grapheme clusters are kept
/// and the word is a non-ASCII emoji starting with a digit (a keycap).
pub open spec fn word_class(s: Seq<char>, mode: GraphemeMode, a: int, b: int) -> Classification {
    if mode != GraphemeMode::Discard && '0' <= s[a] && s[a] <= '9' && !ascii_span(s, a, b)
        && emoji_known(s.subrange(a, b)) {
        Classification::Emoji
    } else {
        Classification::Word
    }
}

/// The tokens from word `wi` on, the text before `cursor` being consumed:
/// each trimmed, non-empty word, preceded by the kept clusters of the gap
/// before it when the mode keeps clusters, then those of the gap after the
/// last word.
pub open spec fn word_tokens(s: Seq<char>, mode: GraphemeMode, words: Seq<(usize, usize)>, wi: int, cursor: int)
    -> Seq<(Seq<char>, Classification)>
    decreases words.len() - wi,
{
    if wi < 0 || wi >= words.len() {
        if mode != GraphemeMode::Discard && cursor < s.len() { gap_tokens(s, mode, cursor, s.len() as int) } else { Seq::empty() }
    } else {
        let rs = words[wi].0 as int;
        let re = rs + words[wi].1;
        let (ws, we) = trim_span(s, rs, re);
        let rest = word_tokens(s, mode, words, wi + 1, re);
        if ws >= we {
            rest
        } else {
            let g = if mode != GraphemeMode::Discard && cursor < ws { gap_tokens(s, mode, cursor, ws) } else { Seq::empty() };
            g + seq![(s.subrange(ws, we), word_class(s, mode, ws, we))] + rest
        }
    }
}

/// The texts and kinds of the tokens the Unicode tokenizer makes of `text`.
pub open spec fn unicode_tokens(text: Seq<char>, mode: GraphemeMode) -> Seq<(Seq<char>, Classification)> {
    word_tokens(text, mode, uax_words(text), 0, 0)
}

// ---------------------------------------------------------------- the tokenizer

/// Clusters of a gap between words that remain to be looked at.
struct ClusterScan {
    lengths: Vec<usize>,
    idx: usize,
    offset: usize,
    end: usize,
}

/// A word whose token waits until the clusters before it are looked at.
#[derive(Clone, Copy)]
struct PendingWord {
    start: usize,
    end: usize,
    raw_end: usize,
    classification: Classification,
}

/// The Unicode tokenizer over one text.
pub struct UnicodeIter {
    chars: Vec<char>,
    words: Vec<(usize, usize)>,
    word_idx: usize,
    clusters: Option<ClusterScan>,
    pending_word: Option<PendingWord>,
    cursor: usize,
    pos: u32,
    mode: GraphemeMode,
}

impl UnicodeIter {
    /// The iterator's internal invariant.
    pub closed spec fn wf(&self) -> bool {
        let len = self.chars@.len();
        &&& spans_ok(self.words@, len as int)
        &&& self.word_idx <= self.words@.len()
        &&& self.cursor <= len
        &&& self.clusters matches Some(c) ==> {
            &&& c.idx <= c.lengths@.len()
            &&& forall|k: int| 0 <= k < c.lengths@.len() ==> #[trigger] c.lengths@[k] > 0
            &&& c.offset + (length_sum(c.lengths@, c.lengths@.len() as int) - length_sum(c.lengths@, c.idx as int)) == c.end
            &&& c.end <= len
        }
        &&& self.pending_word matches Some(w) ==> w.start < w.end <= w.raw_end <= len
            && (w.classification == Classification::Word || w.classification == Classification::Emoji)
    }

    /// The text being tokenized.
    pub closed spec fn text(&self) -> Seq<char> {
        self.chars@
    }

    /// Position of the next token.
    pub closed spec fn next_pos(&self) -> u32 {
        self.pos
    }

    /// The grapheme mode.
    pub closed spec fn spec_mode(&self) -> GraphemeMode {
        self.mode
    }

    /// The texts and kinds of the tokens still to come.
    pub closed spec fn remaining(&self) -> Seq<(Seq<char>, Classification)> {
        let s = self.chars@;
        let cl = match self.clusters {
            Some(c) => cluster_tokens(s, self.mode, c.lengths@, c.idx as int, c.offset as int),
            None => Seq::empty(),
        };
        match self.pending_word {
            Some(w) => cl + seq![(s.subrange(w.start as int, w.end as int), w.classification)]
                + word_tokens(s, self.mode, self.words@, self.word_idx as int, w.raw_end as int),
            None => cl + word_tokens(s, self.mode, self.words@, self.word_idx as int, self.cursor as int),
        }
    }

    /// Start tokenizing `text` with the given grapheme mode.
    pub fn new(text: &str, mode: GraphemeMode) -> (r: Self)
        ensures
            r.wf(),
            r.text() == text@,
            r.next_pos() == 0,
            r.spec_mode() == mode,
            r.remaining() == unicode_tokens(text@, mode),
    {
        let words = word_spans(text);
        UnicodeIter {
            chars: chars_of(text),
            words,
            word_idx: 0,
            clusters: None,
            pending_word: None,
            cursor: 0,
            pos: 0,
            mode,
        }
    }

    /// Positions handed out so far.
    pub fn positions_consumed(&self) -> (r: u32)
        ensures
            r == self.next_pos(),
    {
        self.pos
    }

    /// The token of `[a, b)` with the given kind at the next position.
    fn emit(&mut self, a: usize, b: usize, classification: Classification) -> (t: Token)
        requires
            a <= b <= old(self).chars@.len(),
            old(self).pos < u32::MAX,
        ensures
            t.text@ == old(self).chars@.subrange(a as int, b as int),
            t.pos == old(self).pos,
            t.classification == classification,
            !t.came_from_split,
            final(self).pos == old(self).pos + 1,
            final(self).chars == old(self).chars,
            final(self).words == old(self).words,
            final(self).word_idx == old(self).word_idx,
            final(self).clusters == old(self).clusters,
            final(self).pending_word == old(self).pending_word,
            final(self).cursor == old(self).cursor,
            final(self).mode == old(self).mode,
    {
        let text = string_from_chars(&slice_chars(&self.chars, a, b));
        let token = Token { text, pos: self.pos, classification, came_from_split: false };
        self.pos = self.pos + 1;
        token
    }

    /// Start looking at the clusters of `[a, b)`.
    fn scan_clusters(&mut self, a: usize, b: usize)
        requires
            old(self).wf(),
            a <= b <= old(self).chars@.len(),
        ensures
            final(self).wf(),
            final(self).clusters is Some,
            final(self).chars == old(self).chars,
            final(self).words == old(self).words,
            final(self).word_idx == old(self).word_idx,
            final(self).pending_word == old(self).pending_word,
            final(self).cursor == old(self).cursor,
            final(self).pos == old(self).pos,
            final(self).mode == old(self).mode,
            final(self).clusters matches Some(c) && c.lengths@ == grapheme_lengths(old(self).chars@.subrange(a as int, b as int))
                && c.idx == 0 && c.offset == a,
    {
        let gap = slice_chars(&self.chars, a, b);
        let lengths = cluster_lengths(&gap);
        proof {
            assert(length_sum(lengths@, 0) == 0);
        }
        self.clusters = Some(ClusterScan { lengths, idx: 0, offset: a, end: b });
    }

    /// The next token: a kept grapheme cluster from a gap between words, or
    /// the next word.
    #[verifier::rlimit(40)]
    pub fn next(&mut self) -> (r: Option<Token>)
        requires
            old(self).wf(),
            old(self).next_pos() < u32::MAX,
        ensures
            final(self).wf(),
            final(self).text() == old(self).text(),
            final(self).spec_mode() == old(self).spec_mode(),
            r is None ==> final(self).next_pos() == old(self).next_pos(),
            r matches Some(t) ==> t.pos == old(self).next_pos() && final(self).next_pos() == old(self).next_pos() + 1
                && !t.came_from_split,
            r matches Some(t) ==> exists|a: int, b: int| 0 <= a < b <= old(self).text().len()
                && #[trigger] old(self).text().subrange(a, b) == t.text@,
            r matches Some(t) ==> t.classification == Classification::Word || t.classification == Classification::Emoji
                || cluster_class(old(self).spec_mode(), t.text@) == Some(t.classification),
            old(self).remaining() == match r {
                Some(t) => seq![(t.text@, t.classification)] + final(self).remaining(),
                None => Seq::empty(),
            },
            r is None ==> final(self).remaining() == Seq::<(Seq<char>, Classification)>::empty(),
    {
        let len = self.chars.len();
        loop
            invariant
                self.wf(),
                len == self.chars@.len(),
                self.chars == old(self).chars,
                self.words == old(self).words,
                self.pos == old(self).pos,
                self.pos < u32::MAX,
                self.mode == old(self).mode,
                old(self).remaining() == self.remaining(),
            decreases
                self.words@.len() - self.word_idx,
                if self.pending_word is Some { 1nat } else { 0nat },
                len - self.cursor,
                if self.clusters is Some { 1nat } else { 0nat },
        {
            let ghost wi = self.word_idx;
            let ghost pw = self.pending_word;
            let ghost cur = self.cursor;
            let mut scan = match self.clusters.take() {
                Some(c) => c,
                None => ClusterScan { lengths: Vec::new(), idx: 0, offset: 0, end: 0 },
            };
            let ghost s0 = self.chars@;
            while scan.idx < scan.lengths.len()
                invariant
                    self.wf(),
                    self.clusters is None,
                    self.words == old(self).words,
                    self.word_idx == wi,
                    self.pending_word == pw,
                    self.cursor == cur,
                    self.chars == old(self).chars,
                    self.pos == old(self).pos,
                    self.pos < u32::MAX,
                    self.mode == old(self).mode,
                    scan.idx <= scan.lengths@.len(),
                    forall|k: int| 0 <= k < scan.lengths@.len() ==> #[trigger] scan.lengths@[k] > 0,
                    scan.offset + (length_sum(scan.lengths@, scan.lengths@.len() as int) - length_sum(scan.lengths@, scan.idx as int)) == scan.end,
                    scan.end <= len,
                    len == self.chars@.len(),
                    s0 == self.chars@,
                    old(self).remaining() == cluster_tokens(s0, self.mode, scan.lengths@, scan.idx as int, scan.offset as int)
                        + self.remaining(),
                decreases scan.lengths@.len() - scan.idx,
            {
                let g_len = scan.lengths[scan.idx];
                proof {
                    lemma_length_sum_mono(scan.lengths@, scan.idx + 1, scan.lengths@.len() as int);
                }
                let a = scan.offset;
                let b = a + g_len;
                let ghost i0 = scan.idx as int;
                scan.idx += 1;
                scan.offset = b;
                let (ga, gb) = if has_leading_white(&self.chars, a, b) { trim_white(&self.chars, a, b) } else { (a, b) };
                proof {
                    assert(trim_span(s0, a as int, b as int) == (ga as int, gb as int));
                    assert(cluster_tokens(s0, self.mode, scan.lengths@, i0, a as int) == {
                        let rest = cluster_tokens(s0, self.mode, scan.lengths@, i0 + 1, b as int);
                        if ga >= gb {
                            rest
                        } else {
                            match cluster_class(self.mode, s0.subrange(ga as int, gb as int)) {
                                Some(c) => seq![(s0.subrange(ga as int, gb as int), c)] + rest,
                                None => rest,
                            }
                        }
                    });
                }
                if ga == gb {
                    continue;
                }
                let g = slice_chars(&self.chars, ga, gb);
                match classify_cluster(self.mode, &g) {
                    Some(cls) => {
                        let ghost rest_before = self.remaining();
                        self.clusters = Some(scan);
                        let t = self.emit(ga, gb, cls);
                        proof {
                            assert(old(self).text().subrange(ga as int, gb as int) == t.text@);
                            assert(self.remaining() == cluster_tokens(s0, self.mode, scan.lengths@, i0 + 1, b as int) + rest_before);
                        }
                        return Some(t);
                    },
                    None => {},
                }
            }
            proof {
                assert(cluster_tokens(s0, self.mode, scan.lengths@, scan.idx as int, scan.offset as int)
                    == Seq::<(Seq<char>, Classification)>::empty());
                assert(old(self).remaining() == self.remaining());
            }
            match self.pending_word.take() {
                Some(w) => {
                    self.cursor = w.raw_end;
                    let t = self.emit(w.start, w.end, w.classification);
                    proof {
                        assert(old(self).text().subrange(w.start as int, w.end as int) == t.text@);
                        assert(old(self).remaining() == seq![(t.text@, t.classification)] + self.remaining());
                    }
                    return Some(t);
                },
                None => {},
            }
            if self.word_idx >= self.words.len() {
                if self.mode != GraphemeMode::Discard && self.cursor < len {
                    let from = self.cursor;
                    self.cursor = len;
                    if self.mode == GraphemeMode::Retain || !ascii_range(&self.chars, from, len) {
                        self.scan_clusters(from, len);
                    }
                    continue;
                }
                return None;
            }
            let (raw_start, raw_len) = self.words[self.word_idx];
            self.word_idx += 1;
            let raw_end = raw_start + raw_len;
            let (ws, we) = if has_leading_white(&self.chars, raw_start, raw_end) {
                trim_white(&self.chars, raw_start, raw_end)
            } else {
                (raw_start, raw_end)
            };
            if ws == we {
                self.cursor = raw_end;
                continue;
            }
            let scan_graphemes = self.mode != GraphemeMode::Discard;
            let classification = if scan_graphemes && '0' <= self.chars[ws] && self.chars[ws] <= '9'
                && !ascii_range(&self.chars, ws, we) && is_emoji(&slice_chars(&self.chars, ws, we)) {
                Classification::Emoji
            } else {
                Classification::Word
            };
            if scan_graphemes && self.cursor < ws {
                let gap_start = self.cursor;
                if self.mode == GraphemeMode::Retain || !ascii_range(&self.chars, gap_start, ws) {
                    self.pending_word = Some(PendingWord { start: ws, end: we, raw_end, classification });
                    self.scan_clusters(gap_start, ws);
                    continue;
                }
            }
            self.cursor = raw_end;
            let t = self.emit(ws, we, classification);
            proof {
                assert(old(self).text().subrange(ws as int, we as int) == t.text@);
            }
            return Some(t);
        }
    }
}

} // verus!
