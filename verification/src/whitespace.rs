//! The whitespace tokenizer: maximal runs of non-whitespace characters.
use vstd::prelude::*;
use crate::token::{Classification, Token, Tokenizer};
use crate::text::{chars_of, string_from_chars};

verus! {

/// The Unicode `White_Space` property.
pub open spec fn is_white_space(c: char) -> bool {
    let u = c as u32;
    ||| 0x9 <= u <= 0xD
    ||| u == 0x20
    ||| u == 0x85
    ||| u == 0xA0
    ||| u == 0x1680
    ||| 0x2000 <= u <= 0x200A
    ||| u == 0x2028
    ||| u == 0x2029
    ||| u == 0x202F
    ||| u == 0x205F
    ||| u == 0x3000
}

/// Whether `c` has the Unicode `White_Space` property.
pub fn white_space(c: char) -> (r: bool)
    ensures
        r == is_white_space(c),
{
    let u = c as u32;
    (0x9 <= u && u <= 0xD) || u == 0x20 || u == 0x85 || u == 0xA0 || u == 0x1680
        || (0x2000 <= u && u <= 0x200A) || u == 0x2028 || u == 0x2029 || u == 0x202F
        || u == 0x205F || u == 0x3000
}

/// The code points that Unicode's PropList gives the `White_Space`
/// property, one by one: the C0 controls TAB, LF, VT, FF and CR, SPACE,
/// NEL, NO-BREAK SPACE, OGHAM SPACE MARK, the eleven spaces from EN QUAD to
/// HAIR SPACE, LINE and PARAGRAPH SEPARATOR, NARROW NO-BREAK SPACE, MEDIUM
/// MATHEMATICAL SPACE and IDEOGRAPHIC SPACE.
pub open spec fn white_space_points() -> Seq<u32> {
    seq![0x9u32, 0xA, 0xB, 0xC, 0xD, 0x20, 0x85, 0xA0, 0x1680,
        0x2000, 0x2001, 0x2002, 0x2003, 0x2004, 0x2005, 0x2006, 0x2007, 0x2008, 0x2009, 0x200A,
        0x2028, 0x2029, 0x202F, 0x205F, 0x3000]
}

/// A character separates whitespace tokens exactly when it is one of the
/// `White_Space` code points: carriage return, tab and line feed among them,
/// and no letter, digit or other visible character.
pub proof fn lemma_white_space_is_unicode_white_space(c: char)
    ensures
        is_white_space(c) <==> white_space_points().contains(c as u32),
{
    let pts = white_space_points();
    let u = c as u32;
    if is_white_space(c) {
        let i: int = if u <= 0xD { u - 0x9 } else if u == 0x20 { 5 } else if u == 0x85 { 6 } else if u == 0xA0 { 7 }
            else if u == 0x1680 { 8 } else if 0x2000 <= u <= 0x200A { 9 + (u - 0x2000) } else if u == 0x2028 { 20 }
            else if u == 0x2029 { 21 } else if u == 0x202F { 22 } else if u == 0x205F { 23 } else { 24 };
        assert(pts[i] == u);
    } else {
        assert forall|i: int| 0 <= i < pts.len() implies pts[i] != u by {}
    }
}

/// Every character of `s` in `[a, b)` is whitespace.
pub open spec fn all_white(s: Seq<char>, a: int, b: int) -> bool {
    forall|k: int| a <= k < b ==> is_white_space(#[trigger] s[k])
}

/// No character of `s` in `[a, b)` is whitespace.
pub open spec fn none_white(s: Seq<char>, a: int, b: int) -> bool {
    forall|k: int| a <= k < b ==> !is_white_space(#[trigger] s[k])
}

/// One past the end of the run of non-whitespace characters of `s` from `a`.
pub open spec fn run_end(s: Seq<char>, a: int) -> int
    decreases s.len() - a,
{
    if 0 <= a < s.len() && !is_white_space(s[a]) { run_end(s, a + 1) } else { a }
}

/// The maximal runs of non-whitespace characters of `s` from index `i` on.
pub open spec fn ws_words(s: Seq<char>, i: int) -> Seq<Seq<char>>
    decreases s.len() - i,
{
    if i < 0 || i >= s.len() {
        Seq::empty()
    } else if is_white_space(s[i]) {
        ws_words(s, i + 1)
    } else {
        let b = run_end(s, i);
        if b <= i || b > s.len() { Seq::empty() } else { seq![s.subrange(i, b)] + ws_words(s, b) }
    }
}

/// Splits text on Unicode whitespace.
pub struct Whitespace;

/// The tokens of one text: each maximal run of non-whitespace characters,
/// numbered from zero.
pub struct WhitespaceIter {
    chars: Vec<char>,
    cursor: usize,
    pos: u32,
}

impl WhitespaceIter {
    /// The characters being tokenized.
    pub closed spec fn text(&self) -> Seq<char> {
        self.chars@
    }

    /// How far the text has been consumed.
    pub closed spec fn consumed(&self) -> int {
        self.cursor as int
    }

    /// Position of the next token.
    pub closed spec fn next_pos(&self) -> u32 {
        self.pos
    }

    /// The texts of the tokens still to come.
    pub closed spec fn remaining(&self) -> Seq<Seq<char>> {
        ws_words(self.chars@, self.cursor as int)
    }

    /// Start tokenizing `text`.
    pub fn new(text: &str) -> (r: Self)
        ensures
            r.text() == text@,
            r.consumed() == 0,
            r.next_pos() == 0,
            r.remaining() == ws_words(text@, 0),
    {
        WhitespaceIter { chars: chars_of(text), cursor: 0, pos: 0 }
    }

    /// Positions handed out so far.
    pub fn positions_consumed(&self) -> (r: u32)
        ensures
            r == self.next_pos(),
    {
        self.pos
    }

    /// The next token: the next maximal run of non-whitespace characters.
    pub fn next(&mut self) -> (r: Option<Token>)
        requires
            old(self).consumed() <= old(self).text().len(),
            old(self).next_pos() < u32::MAX,
        ensures
            final(self).text() == old(self).text(),
            final(self).consumed() <= final(self).text().len(),
            r is None ==> all_white(old(self).text(), old(self).consumed(), old(self).text().len() as int)
                && final(self).next_pos() == old(self).next_pos(),
            r matches Some(t) ==> exists|a: int| {
                &&& old(self).consumed() <= a < final(self).consumed()
                &&& all_white(old(self).text(), old(self).consumed(), a)
                &&& none_white(old(self).text(), a, final(self).consumed())
                &&& (final(self).consumed() == old(self).text().len()
                    || is_white_space(old(self).text()[final(self).consumed()]))
                &&& t.text@ == #[trigger] old(self).text().subrange(a, final(self).consumed())
            },
            r matches Some(t) ==> t.pos == old(self).next_pos() && t.classification == Classification::Unknown
                && !t.is_split_chunk() && final(self).next_pos() == old(self).next_pos() + 1,
            old(self).remaining() == match r {
                Some(t) => seq![t.text@] + final(self).remaining(),
                None => Seq::empty(),
            },
            r is None ==> final(self).remaining() == Seq::<Seq<char>>::empty(),
    {
        let len = self.chars.len();
        let start_cursor = self.cursor;
        while self.cursor < len && white_space(self.chars[self.cursor])
            invariant
                len == self.chars@.len(),
                start_cursor <= self.cursor <= len,
                self.chars == old(self).chars,
                self.pos == old(self).pos,
                start_cursor == old(self).cursor,
                all_white(self.chars@, start_cursor as int, self.cursor as int),
                ws_words(self.chars@, start_cursor as int) == ws_words(self.chars@, self.cursor as int),
            decreases len - self.cursor,
        {
            self.cursor += 1;
        }
        if self.cursor == len {
            return None;
        }
        let a = self.cursor;
        let mut word: Vec<char> = Vec::new();
        while self.cursor < len && !white_space(self.chars[self.cursor])
            invariant
                len == self.chars@.len(),
                a <= self.cursor <= len,
                self.chars == old(self).chars,
                self.pos == old(self).pos,
                none_white(self.chars@, a as int, self.cursor as int),
                word@ == self.chars@.subrange(a as int, self.cursor as int),
                run_end(self.chars@, a as int) == run_end(self.chars@, self.cursor as int),
            decreases len - self.cursor,
        {
            word.push(self.chars[self.cursor]);
            self.cursor += 1;
            proof {
                assert(word@ == self.chars@.subrange(a as int, self.cursor as int));
            }
        }
        let pos = self.pos;
        self.pos = self.pos + 1;
        let text = string_from_chars(&word);
        proof {
            assert(self.cursor > a);
            assert(text@ == old(self).chars@.subrange(a as int, self.cursor as int));
            assert(run_end(self.chars@, self.cursor as int) == self.cursor);
            assert(ws_words(self.chars@, a as int) == seq![text@] + ws_words(self.chars@, self.cursor as int));
            assert(old(self).consumed() <= a < self.consumed());
            assert(text@ == old(self).text().subrange(a as int, self.consumed()));
            assert(self.consumed() == old(self).text().len() || is_white_space(old(self).text()[self.consumed()]));
        }
        Some(Token { text, pos, classification: Classification::Unknown, came_from_split: false })
    }
}

impl Tokenizer for Whitespace {
    type Iter = WhitespaceIter;

    fn tokenize(&self, text: &str) -> (r: WhitespaceIter)
        ensures
            r.text() == text@,
            r.consumed() == 0,
            r.next_pos() == 0,
            r.remaining() == ws_words(text@, 0),
    {
        WhitespaceIter::new(text)
    }
}

} // verus!
