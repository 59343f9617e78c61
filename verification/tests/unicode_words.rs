use tin::spec::GraphemeMode;
use tin::token::Classification;
use tin::unicode::UnicodeIter;

fn collect(text: &str, mode: GraphemeMode) -> Vec<(String, Classification, u32)> {
    let mut iter = UnicodeIter::new(text, mode);
    let mut out = Vec::new();
    while let Some(token) = iter.next() {
        out.push((token.text, token.classification, token.pos));
    }
    out
}

#[test]
fn words_follow_uax_boundaries() {
    assert_eq!(
        collect("can't 29.3 foo_bar 東京 مرحبا", GraphemeMode::Discard),
        vec![
            ("can't".into(), Classification::Word, 0),
            ("29.3".into(), Classification::Word, 1),
            ("foo_bar".into(), Classification::Word, 2),
            ("東".into(), Classification::Word, 3),
            ("京".into(), Classification::Word, 4),
            ("مرحبا".into(), Classification::Word, 5),
        ]
    );
}

#[test]
fn policies_form_the_expected_subsets() {
    let text = "alpha 😀 + ! \u{0301} omega";
    assert_eq!(
        collect(text, GraphemeMode::Discard),
        vec![("alpha".into(), Classification::Word, 0), ("omega".into(), Classification::Word, 1)]
    );
    assert_eq!(
        collect(text, GraphemeMode::Emoji),
        vec![
            ("alpha".into(), Classification::Word, 0),
            ("😀".into(), Classification::Emoji, 1),
            ("omega".into(), Classification::Word, 2),
        ]
    );
    assert_eq!(
        collect(text, GraphemeMode::Retain),
        vec![
            ("alpha".into(), Classification::Word, 0),
            ("😀".into(), Classification::Emoji, 1),
            ("+".into(), Classification::Symbol, 2),
            ("\u{0301}".into(), Classification::Grapheme, 3),
            ("omega".into(), Classification::Word, 4),
        ]
    );
}

#[test]
fn emoji_clusters_stay_whole() {
    let text = "👨‍👩‍👧‍👦 👍🏽 🇺🇳 1️⃣ ❤️";
    let tokens = collect(text, GraphemeMode::Emoji);
    assert_eq!(
        tokens.iter().map(|token| token.0.as_str()).collect::<Vec<_>>(),
        ["👨‍👩‍👧‍👦", "👍🏽", "🇺🇳", "1️⃣", "❤️"]
    );
    assert!(tokens.iter().all(|token| token.1 == Classification::Emoji));
}

#[test]
fn punctuation_whitespace_and_controls_are_never_tokens() {
    assert!(collect(" ,.!\t\n\u{0000}\u{200d}\u{fe0f}", GraphemeMode::Retain).is_empty());
}

#[test]
fn combining_only_word_boundaries_never_retain_delimiter_whitespace() {
    const MARKS: &str = "\u{0351}\u{034c}\u{0369}\u{0314}\u{0357}\u{0305}";
    assert_eq!(
        collect(&format!("alpha {MARKS} omega"), GraphemeMode::Discard),
        vec![
            ("alpha".into(), Classification::Word, 0),
            (MARKS.into(), Classification::Word, 1),
            ("omega".into(), Classification::Word, 2),
        ]
    );
}

#[test]
fn words_cover_rtl_and_indic_conjunct_boundaries() {
    assert_eq!(
        collect("שלום क्\u{200d}ष বাংলা", GraphemeMode::Discard),
        vec![
            ("שלום".into(), Classification::Word, 0),
            ("क्\u{200d}ष".into(), Classification::Word, 1),
            ("বাংলা".into(), Classification::Word, 2),
        ]
    );
}

#[test]
fn positions_consumed_counts_emitted_tokens() {
    let mut iter = UnicodeIter::new("one two three", GraphemeMode::Discard);
    while iter.next().is_some() {}
    assert_eq!(iter.positions_consumed(), 3);
}
