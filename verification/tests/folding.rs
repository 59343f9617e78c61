use tin::spec::Folding;
use tin::folder::{fold_case_and_accent, fold_latin1, fold_latin1_char, CompiledFolder, Latin1Fold};
use tin::token::{Classification, Token};
use unicode_normalization::char::is_combining_mark;
use unicode_normalization::UnicodeNormalization;

fn apply(folder: CompiledFolder, text: &str) -> Token {
    let mut token = Token::new(text, 0);
    folder.apply(&mut token);
    token
}

fn materialized_fold(text: &str) -> String {
    let case_folded: String = text.chars().flat_map(char::to_lowercase).collect();
    let stripped: String = case_folded.nfd().filter(|c| !is_combining_mark(*c)).collect();
    stripped.nfc().collect()
}

#[test]
fn all_modes_have_fixed_semantics() {
    assert_eq!(apply(CompiledFolder::Preserve, "CAFÉ").text, "CAFÉ");
    assert_eq!(apply(CompiledFolder::Case, "CAFÉ").text, "café");
    assert_eq!(apply(CompiledFolder::Accent, "CAFÉ").text, "CAFE");
    assert_eq!(apply(CompiledFolder::CaseAndAccent, "CAFÉ").text, "cafe");
}

#[test]
fn combined_folder_matches_lowercase_then_accent_semantics() {
    let cases = [
        ("Straße", "straße"),
        ("ΟΣ", "οσ"),
        ("İ", "i"),
        ("I", "i"),
        ("ﬁ", "ﬁ"),
        ("Cafe\u{301}", "cafe"),
        ("\u{301}", ""),
        ("क़", "क"),
        ("\u{1100}\u{1161}", "\u{ac00}"),
        ("\u{1100}\u{1161}\u{11a8}", "\u{ac01}"),
    ];
    for (input, expected) in cases {
        assert_eq!(apply(CompiledFolder::CaseAndAccent, input).text, expected, "input {input:?}");
    }
}

#[test]
fn unchanged_borrowed_text_stays_borrowed() {
    // Texts the folder leaves alone come back unchanged (no replacement).
    let chars: Vec<char> = "plain123".chars().collect();
    assert_eq!(fold_case_and_accent(&chars), None);
    assert_eq!(apply(CompiledFolder::Case, "über").text, "über");
    for text in ["東京", "مرحبا", "😀"] {
        let chars: Vec<char> = text.chars().collect();
        assert_eq!(fold_case_and_accent(&chars), None, "input {text:?}");
    }
}

#[test]
fn changed_borrowed_text_owns_only_the_result() {
    let chars: Vec<char> = "CAFÉ".chars().collect();
    assert_eq!(fold_case_and_accent(&chars), Some("cafe".chars().collect()));
    assert_eq!(apply(CompiledFolder::CaseAndAccent, "CAFÉ").text, "cafe");
}

#[test]
fn direct_latin1_folder_matches_materialized_pipeline() {
    let text: Vec<char> = (0..=u8::MAX).filter_map(|byte| char::from_u32(byte as u32)).collect();
    let source: String = text.iter().collect();
    match fold_latin1(&text) {
        Latin1Fold::Folded(v) => assert_eq!(v.into_iter().collect::<String>(), materialized_fold(&source)),
        _ => panic!("the Latin-1 block changes under folding"),
    }
    let not_latin1: Vec<char> = "aā".chars().collect();
    assert!(matches!(fold_latin1(&not_latin1), Latin1Fold::NotLatin1));
    let identity: Vec<char> = "straße".chars().collect();
    assert!(matches!(fold_latin1(&identity), Latin1Fold::Identity));
}

#[test]
fn fold_latin1_table_matches_materialized_pipeline() {
    for i in 0..=255u32 {
        let c = char::from_u32(i).expect("every Latin-1 scalar is a char");
        let folded: Vec<char> = materialized_fold(&c.to_string()).chars().collect();
        assert_eq!(folded.len(), 1, "U+{i:04X} must fold to exactly one char, got {folded:?}");
        assert_eq!(fold_latin1_char(c), folded[0], "U+{i:04X}");
        assert!(folded[0].len_utf8() <= c.len_utf8(), "U+{i:04X} must not grow when folded");
    }
}

#[test]
fn latin1_identity_fold_stays_borrowed_and_divergence_allocates_once() {
    let token = apply(CompiledFolder::CaseAndAccent, "straße");
    assert_eq!(token.text, "straße");
    let chars: Vec<char> = "straße".chars().collect();
    assert_eq!(fold_case_and_accent(&chars), None);

    let token = apply(CompiledFolder::CaseAndAccent, "déjà");
    assert_eq!(token.text, "deja");

    let token = apply(CompiledFolder::CaseAndAccent, "Æther-æß");
    assert_eq!(token.text, "æther-æß");
}

#[test]
fn owned_ascii_case_fold_reuses_its_allocation() {
    let mut token = Token { text: "HELLO".to_owned(), pos: 0, classification: Classification::Word, came_from_split: false };
    CompiledFolder::CaseAndAccent.apply(&mut token);
    assert_eq!(token.text, "hello");
    assert_eq!(token.pos, 0);
    assert_eq!(token.classification, Classification::Word);
}

#[test]
fn every_combining_mark_folds_to_empty() {
    for c in (0..=char::MAX as u32).filter_map(char::from_u32).filter(|c| is_combining_mark(*c)) {
        let folded = materialized_fold(&c.to_string());
        assert!(folded.is_empty(), "U+{:04X} folds to {folded:?}, expected empty", c as u32);
        let chars = vec![c];
        assert_eq!(fold_case_and_accent(&chars), Some(Vec::new()), "U+{:04X}", c as u32);
    }
}

#[test]
fn folding_keeps_position_and_kind() {
    let mut token = Token::with_classification("ÉTÉ", 7, Classification::Word);
    CompiledFolder::Accent.apply(&mut token);
    assert_eq!(token, Token::with_classification("ETE", 7, Classification::Word));
}

#[test]
fn folder_follows_the_settings() {
    assert!(CompiledFolder::new(Folding::Fold, Folding::Fold) == CompiledFolder::CaseAndAccent);
    assert!(CompiledFolder::new(Folding::Preserve, Folding::Fold) == CompiledFolder::Accent);
    assert!(CompiledFolder::new(Folding::Fold, Folding::Preserve) == CompiledFolder::Case);
    assert!(CompiledFolder::new(Folding::Preserve, Folding::Preserve) == CompiledFolder::Preserve);
}

#[test]
fn general_path_matches_materialized_fold() {
    for text in ["ΟΣ ΤΕΛΟΣ", "Ǆemal", "Ⅻ", "Ωμέγα", "ᾼ", "ÅNGSTRÖM"] {
        let chars: Vec<char> = text.chars().collect();
        let expected = materialized_fold(text);
        let got = match fold_case_and_accent(&chars) {
            Some(v) => v.into_iter().collect::<String>(),
            None => text.to_string(),
        };
        assert_eq!(got, expected, "input {text:?}");
    }
}
