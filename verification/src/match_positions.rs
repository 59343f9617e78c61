//! Matched query parts in token-position coordinates.
use vstd::prelude::*;

verus! {

/// One matched query part over token positions: `start` and `end` are
/// inclusive positions in the indexed token stream, and a point match has
/// `start == end`. Positions are stored as SQL `integer`s.
#[derive(Debug, PartialEq)]
pub struct MatchPosition {
    pub part: String,
    pub start: i32,
    pub end: i32,
}

impl MatchPosition {
    /// A match of `part` at the single position `pos`.
    pub fn point(part: &str, pos: u32) -> (r: Self)
        ensures
            r.part@ == part@,
            r.start == pos as i32,
            r.end == pos as i32,
    {
        Self::span(part, pos, pos)
    }

    /// A match of `part` over `start..=end`; positions are reinterpreted
    /// as `i32`, as SQL `integer` columns hold them.
    pub fn span(part: &str, start: u32, end: u32) -> (r: Self)
        ensures
            r.part@ == part@,
            r.start == start as i32,
            r.end == end as i32,
    {
        MatchPosition { part: part.to_string(), start: start as i32, end: end as i32 }
    }
}

} // verus!
