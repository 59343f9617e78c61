use tin::scoring::{lex_less, plan_scoring_terms, PlannedScoringTerm, QueryTermOccurrence};
use tin::stop_words::ScoreStopWords;
use tin::term_edit::TermSetEdit;

fn occurrence(text: &str, explicitly_boosted: bool) -> QueryTermOccurrence<'_> {
    QueryTermOccurrence { text, explicitly_boosted }
}

/// The weight a planned term scores with: its occurrences' boosts summed
/// left to right from 0.0, or 1.0 for a term only the edit brings.
fn weight(term: &PlannedScoringTerm, boosts: &[f32]) -> f32 {
    if term.occurrences.is_empty() {
        1.0
    } else {
        term.occurrences.iter().fold(0.0_f32, |sum, &i| sum + boosts[i])
    }
}

#[test]
fn policy_applies_multiplicity_pins_edits_and_stop_words() {
    let stop_csv = "stopped,blocked";
    let stop = ScoreStopWords::from_csv(stop_csv).unwrap();
    let query = vec![
        occurrence("rare", false),
        occurrence("rare", true),
        occurrence("dense", false),
        occurrence("stopped", true),
    ];
    let boosts = [1.0_f32, 2.5, 1.0, 9.0];
    let edit = TermSetEdit::Add(vec!["dense".into(), "added".into(), "blocked".into()]);
    let terms = plan_scoring_terms(&query, &edit, Some(&stop));

    assert_eq!(terms.iter().map(|t| t.text.as_str()).collect::<Vec<_>>(), ["added", "dense", "rare"]);
    assert_eq!(weight(&terms[0], &boosts), 1.0);
    assert!(terms[0].pinned);
    assert_eq!(weight(&terms[1], &boosts), 1.0);
    assert!(terms[1].pinned);
    assert_eq!(weight(&terms[2], &boosts), 3.5);
    assert!(terms[2].pinned);

    let replaced = plan_scoring_terms(
        &vec![occurrence("ignored", false)],
        &TermSetEdit::Replace(vec!["replacement".into(), "replacement".into()]),
        None,
    );
    assert_eq!(replaced.len(), 1);
    assert_eq!(replaced[0].text, "replacement");
    assert_eq!(weight(&replaced[0], &[1.0]), 1.0);
    assert!(replaced[0].pinned);
}

#[test]
fn plan_lists_occurrences_in_query_order() {
    let query = vec![occurrence("b", false), occurrence("a", false), occurrence("b", false)];
    let terms = plan_scoring_terms(&query, &TermSetEdit::Unchanged, None);
    assert_eq!(terms.len(), 2);
    assert_eq!(terms[0].text, "a");
    assert_eq!(terms[0].occurrences, vec![1]);
    assert!(!terms[0].pinned);
    assert_eq!(terms[1].text, "b");
    assert_eq!(terms[1].occurrences, vec![0, 2]);
    assert!(!terms[1].pinned);
}

#[test]
fn replacement_edit_drops_query_occurrences() {
    let query = vec![occurrence("kept", true)];
    let terms = plan_scoring_terms(&query, &TermSetEdit::Replace(vec!["kept".into()]), None);
    assert_eq!(terms.len(), 1);
    assert!(terms[0].occurrences.is_empty());
    assert!(terms[0].pinned);
}

#[test]
fn plan_of_nothing_is_empty() {
    let stop = ScoreStopWords::from_csv("only").unwrap();
    let query = vec![occurrence("only", false)];
    assert!(plan_scoring_terms(&query, &TermSetEdit::Unchanged, Some(&stop)).is_empty());
    assert!(plan_scoring_terms(&Vec::new(), &TermSetEdit::Unchanged, None).is_empty());
}

#[test]
fn lexical_order_is_code_point_order() {
    let chars = |s: &str| s.chars().collect::<Vec<char>>();
    assert!(lex_less(&chars("Zebra"), &chars("apple")));
    assert!(lex_less(&chars("ab"), &chars("abc")));
    assert!(!lex_less(&chars("abc"), &chars("abc")));
    assert!(lex_less(&chars("z"), &chars("é")));
    let query = vec![occurrence("é", false), occurrence("z", false), occurrence("Z", false)];
    let terms = plan_scoring_terms(&query, &TermSetEdit::Unchanged, None);
    assert_eq!(terms.iter().map(|t| t.text.as_str()).collect::<Vec<_>>(), ["Z", "z", "é"]);
}
