//! Tokens and the tokenizer interface.
use vstd::prelude::*;

verus! {

/// What kind of text a token holds.
#[derive(Debug, Default, Clone, Copy, PartialEq, Eq, Structural)]
pub enum Classification {
    #[default]
    Unknown,
    Word,
    Punctuation,
    Whitespace,
    Symbol,
    Other,
    Emoji,
    Grapheme,
}

/// One token: its text, its position in the token stream, and its kind.
#[derive(Debug, PartialEq)]
pub struct Token {
    pub text: String,
    pub pos: u32,
    pub classification: Classification,
    pub came_from_split: bool,
}

impl Token {
    /// The token is one chunk of a longer token that was split.
    pub open spec fn is_split_chunk(&self) -> bool {
        self.came_from_split
    }

    /// An unclassified token holding `text` at position `pos`.
    pub fn new(text: &str, pos: u32) -> (r: Token)
        ensures
            r.text@ == text@,
            r.pos == pos,
            r.classification == Classification::Unknown,
            !r.is_split_chunk(),
    {
        Token { text: text.to_owned(), pos, classification: Classification::Unknown, came_from_split: false }
    }

    /// A token holding `text` at position `pos` with the given kind.
    pub fn with_classification(text: &str, pos: u32, classification: Classification) -> (r: Token)
        ensures
            r.text@ == text@,
            r.pos == pos,
            r.classification == classification,
            !r.is_split_chunk(),
    {
        Token { text: text.to_owned(), pos, classification, came_from_split: false }
    }

    /// Whether the token is one chunk of a longer token that was split.
    pub fn came_from_split(&self) -> (r: bool)
        ensures
            r == self.is_split_chunk(),
    {
        self.came_from_split
    }
}

/// Moves the token at `i` out of `v`, leaving an empty token in its place.
pub(crate) fn take_token(v: &mut Vec<Token>, i: usize) -> (t: Token)
    requires
        i < old(v)@.len(),
    ensures
        t == old(v)@[i as int],
        final(v)@.len() == old(v)@.len(),
        forall|k: int| 0 <= k < old(v)@.len() && k != i ==> #[trigger] final(v)@[k] == old(v)@[k],
{
    let mut slot = Token { text: String::new(), pos: 0, classification: Classification::Unknown, came_from_split: false };
    std::mem::swap(&mut slot, &mut v[i]);
    slot
}

/// A tokenizer turns a text into its tokens, one call of the iterator's
/// `next` at a time.
pub trait Tokenizer {
    /// The token stream of one text.
    type Iter;

    /// Tokenize `text`.
    fn tokenize(&self, text: &str) -> Self::Iter;
}

} // verus!
