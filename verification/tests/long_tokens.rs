use tin::long_tokens::{truncate_end, LongTokenIter};
use tin::spec::{LongTokenMode, LongTokenSpec, PositionGapMode};
use tin::token::{Classification, Token};

fn spec(mode: LongTokenMode, max_bytes: usize) -> LongTokenSpec {
    LongTokenSpec { mode, max_bytes }
}

fn token(text: &str, pos: u32) -> Token {
    Token::with_classification(text, pos, Classification::Word)
}

fn run(tokens: Vec<Token>, spec: LongTokenSpec, gaps: PositionGapMode) -> Vec<Token> {
    let mut iter = LongTokenIter::new(tokens, spec, gaps);
    let mut out = Vec::new();
    while let Some(t) = iter.next() {
        out.push(t);
    }
    out
}

#[test]
fn under_limit_is_zero_copy() {
    let input = "abcdef";
    let output = run(vec![token(input, 0)], spec(LongTokenMode::Split, 8), PositionGapMode::Preserve);
    assert_eq!(output.len(), 1);
    assert_eq!(output[0].text, input);
    assert!(!output[0].came_from_split());
}

#[test]
fn borrowed_split_chunks_are_source_slices() {
    let input = "abécd";
    let chunks = run(vec![token(input, 4)], spec(LongTokenMode::Split, 4), PositionGapMode::Preserve);
    assert_eq!(chunks.iter().map(|chunk| chunk.text.as_str()).collect::<Vec<_>>(), ["abé", "cd"]);
    assert_eq!(chunks.iter().map(|chunk| chunk.pos).collect::<Vec<_>>(), [4, 5]);
    assert!(chunks.iter().all(Token::came_from_split));
}

#[test]
fn split_keeps_fitting_grapheme_clusters_whole() {
    let input = "a\u{301}b\u{301}c";
    let chunks = run(vec![token(input, 0)], spec(LongTokenMode::Split, 4), PositionGapMode::Preserve);
    let texts: Vec<String> = chunks.into_iter().map(|t| t.text).collect();
    assert_eq!(texts, ["a\u{301}", "b\u{301}c"]);
}

#[test]
fn oversized_cluster_falls_back_to_bounded_scalar_chunks() {
    let input = "👨‍👩‍👧‍👦";
    let output = run(vec![token(input, 0)], spec(LongTokenMode::Split, 4), PositionGapMode::Preserve);
    assert_eq!(
        output.iter().map(|token| token.text.as_str()).collect::<Vec<_>>(),
        ["👨", "\u{200d}", "👩", "\u{200d}", "👧", "\u{200d}", "👦"]
    );
    assert_eq!(output.iter().map(|token| token.text.as_str()).collect::<String>(), input);
    assert!(output.iter().all(|token| token.text.len() <= 4));
    assert!(output.iter().all(Token::came_from_split));
}

#[test]
fn multi_kilobyte_cluster_never_exceeds_the_default_ceiling() {
    let input = format!("a{}", "\u{301}".repeat(4_000));
    let output = run(vec![token(&input, 0)], spec(LongTokenMode::Split, 256), PositionGapMode::Preserve);
    assert_eq!(output.iter().map(|token| token.text.as_str()).collect::<String>(), input);
    assert!(output.len() > 1);
    assert!(output.iter().all(|token| token.text.len() <= 256));
    assert!(output.iter().all(Token::came_from_split));
}

#[test]
fn truncate_stops_before_an_oversized_cluster() {
    let output = run(vec![token("ab👨‍👩‍👧‍👦", 0)], spec(LongTokenMode::Truncate, 4), PositionGapMode::Preserve);
    assert_eq!(output[0].text, "ab");

    let output = run(vec![token("👨‍👩‍👧‍👦", 0)], spec(LongTokenMode::Truncate, 4), PositionGapMode::Preserve);
    assert!(output.is_empty());
}

#[test]
fn preserve_keeps_discard_gaps_and_split_offsets() {
    let output = run(
        vec![token("ok", 0), token("abcde", 1), token("z", 2)],
        spec(LongTokenMode::Split, 4),
        PositionGapMode::Preserve,
    );
    assert_eq!(output.iter().map(|token| token.pos).collect::<Vec<_>>(), [0, 1, 2, 3]);

    let output = run(
        vec![token("ok", 0), token("discard", 1), token("z", 2)],
        spec(LongTokenMode::Discard, 4),
        PositionGapMode::Preserve,
    );
    assert_eq!(output.iter().map(|token| token.pos).collect::<Vec<_>>(), [0, 2]);
}

#[test]
fn collapse_numbers_only_emitted_chunks() {
    let output = run(vec![token("abcde", 8)], spec(LongTokenMode::Split, 4), PositionGapMode::Collapse);
    assert_eq!(output.iter().map(|token| token.pos).collect::<Vec<_>>(), [0, 1]);
}

#[test]
fn owned_split_allocates_owned_chunks() {
    let source = Token { text: "abcdef".to_owned(), pos: 0, classification: Classification::Word, came_from_split: false };
    let chunks = run(vec![source], spec(LongTokenMode::Split, 4), PositionGapMode::Preserve);
    assert_eq!(chunks.iter().map(|chunk| chunk.text.as_str()).collect::<Vec<_>>(), ["abcd", "ef"]);
}

#[test]
fn split_offset_counts_continuations() {
    let mut iter = LongTokenIter::new(
        vec![token("abcdefghij", 0), token("z", 1)],
        spec(LongTokenMode::Split, 4),
        PositionGapMode::Preserve,
    );
    let mut positions = Vec::new();
    while let Some(t) = iter.next() {
        positions.push(t.pos);
    }
    assert_eq!(positions, [0, 1, 2, 3]);
    assert_eq!(iter.split_position_offset(), 2);
}

#[test]
fn truncate_end_counts_utf8_bytes() {
    let chars: Vec<char> = "aé€😀".chars().collect();
    assert_eq!(truncate_end(&chars, 3), 2);
    assert_eq!(truncate_end(&chars, 5), 2);
    assert_eq!(truncate_end(&chars, 6), 3);
    assert_eq!(truncate_end(&chars, 10), 4);
}

#[test]
fn empty_tokens_pass_through() {
    let output = run(vec![token("", 2), token("abcdef", 3)], spec(LongTokenMode::Truncate, 4), PositionGapMode::Collapse);
    assert_eq!(output.iter().map(|t| (t.text.as_str(), t.pos)).collect::<Vec<_>>(), [("", 0), ("abcd", 1)]);
}

#[test]
fn split_chunks_concatenate_to_the_token() {
    let input = "Grüße aus Köln: e\u{301}te\u{301} 👨‍👩‍👧 and plain ascii tail";
    for max_bytes in [4usize, 5, 7, 16] {
        let chunks = run(vec![token(input, 3)], spec(LongTokenMode::Split, max_bytes), PositionGapMode::Preserve);
        assert!(chunks.len() > 1);
        assert_eq!(chunks.iter().map(|t| t.text.as_str()).collect::<String>(), input);
        assert!(chunks.iter().all(|t| !t.text.is_empty() && t.text.len() <= max_bytes));
    }
}
