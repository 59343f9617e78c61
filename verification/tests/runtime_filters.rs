use tin::interval::Interval;
use tin::position_filter::{PositionFilterBound, ResolvedPositionWindow, SpanPositionFilter};
use tin::query::SpanQuery;
use tin::span_expr::SpanExpr;

#[test]
fn first_and_between_windows_use_inclusive_bounds() {
    let first = SpanPositionFilter::First(PositionFilterBound::Absolute(3));
    assert_eq!(first.resolve_window(0), Some(ResolvedPositionWindow { lo: 0, hi: 2 }));

    // User-facing word numbers count from 1; the engine window is 0-based.
    let between = SpanPositionFilter::Between { lo: 4, hi: 9 };
    assert_eq!(between.resolve_window(0), Some(ResolvedPositionWindow { lo: 3, hi: 8 }));

    let first_word = SpanPositionFilter::Between { lo: 1, hi: 1 };
    assert_eq!(first_word.resolve_window(0), Some(ResolvedPositionWindow { lo: 0, hi: 0 }));
}

#[test]
fn relative_windows_resolve_from_search_doc_length() {
    let first = SpanPositionFilter::First(PositionFilterBound::Percent(25));
    assert_eq!(first.resolve_window(10), Some(ResolvedPositionWindow { lo: 0, hi: 2 }));

    let last = SpanPositionFilter::Last(PositionFilterBound::Absolute(4));
    assert_eq!(last.resolve_window(10), Some(ResolvedPositionWindow { lo: 6, hi: 9 }));

    let middle = SpanPositionFilter::Middle { percent: 50 };
    assert_eq!(middle.resolve_window(10), Some(ResolvedPositionWindow { lo: 3, hi: 6 }));
}

#[test]
fn in_words_counts_words_from_one() {
    assert_eq!(
        SpanPositionFilter::Between { lo: 1, hi: 3 }.resolve_window(0),
        SpanPositionFilter::First(PositionFilterBound::Absolute(3)).resolve_window(0),
    );
    assert_eq!(
        SpanPositionFilter::Between { lo: 3, hi: 3 }.resolve_window(0),
        Some(ResolvedPositionWindow { lo: 2, hi: 2 })
    );
    assert_eq!(SpanPositionFilter::Between { lo: 0, hi: 0 }.resolve_window(0), None);
    assert_eq!(
        SpanPositionFilter::Between { lo: 0, hi: 2 }.resolve_window(0),
        SpanPositionFilter::Between { lo: 1, hi: 2 }.resolve_window(0),
    );
}

#[test]
fn middle_excludes_the_rounded_ends() {
    let middle = SpanPositionFilter::Middle { percent: 50 }.resolve_window(10).unwrap();
    let first = SpanPositionFilter::First(PositionFilterBound::Percent(25)).resolve_window(10).unwrap();
    let last = SpanPositionFilter::Last(PositionFilterBound::Percent(25)).resolve_window(10).unwrap();
    assert_eq!(middle, ResolvedPositionWindow { lo: 3, hi: 6 });
    assert!(middle.lo > first.hi);
    assert!(middle.hi < last.lo);

    assert_eq!(
        SpanPositionFilter::Middle { percent: 50 }.resolve_window(100),
        Some(ResolvedPositionWindow { lo: 25, hi: 74 })
    );
    assert_eq!(SpanPositionFilter::Middle { percent: 0 }.resolve_window(10), None);
}

#[test]
fn resolved_windows_filter_intervals_and_phrase_starts() {
    let window = ResolvedPositionWindow { lo: 2, hi: 5 };
    assert!(window.matches_interval(Interval::new(2, 5)));
    assert!(!window.matches_interval(Interval::new(1, 5)));
    assert!(window.matches_start_width(2, 3));
    assert!(!window.matches_start_width(4, 3));
}

#[test]
fn filters_render_in_query_language() {
    assert_eq!(
        SpanPositionFilter::First(PositionFilterBound::Absolute(3)).to_string(),
        "IN FIRST 3 WORDS"
    );
    assert_eq!(SpanPositionFilter::Last(PositionFilterBound::Percent(25)).to_string(), "IN LAST 25%");
    assert_eq!(SpanPositionFilter::Middle { percent: 50 }.to_string(), "IN MIDDLE 50%");
    assert_eq!(SpanPositionFilter::Between { lo: 4, hi: 10 }.to_string(), "IN WORDS 4 TO 10");
}

#[test]
fn only_relative_filters_need_the_document_length() {
    assert!(!SpanPositionFilter::First(PositionFilterBound::Absolute(3)).needs_doc_length());
    assert!(SpanPositionFilter::First(PositionFilterBound::Percent(3)).needs_doc_length());
    assert!(SpanPositionFilter::Last(PositionFilterBound::Absolute(3)).needs_doc_length());
    assert!(SpanPositionFilter::Middle { percent: 3 }.needs_doc_length());
    assert!(!SpanPositionFilter::Between { lo: 1, hi: 3 }.needs_doc_length());
}

#[test]
fn filter_matches_through_resolved_window() {
    let last = SpanPositionFilter::Last(PositionFilterBound::Absolute(2));
    assert!(last.matches_interval(10, Interval::new(8, 9)));
    assert!(!last.matches_interval(10, Interval::new(7, 9)));
    assert!(last.matches_start_width(10, 8, 2));
    assert!(!SpanPositionFilter::Middle { percent: 0 }.matches_interval(10, Interval::new(5, 5)));
}

#[test]
fn last_window_longer_than_document_starts_at_zero() {
    let last = SpanPositionFilter::Last(PositionFilterBound::Absolute(40));
    assert_eq!(last.resolve_window(10), Some(ResolvedPositionWindow { lo: 0, hi: 9 }));
}

#[test]
fn nested_absolute_filters_can_still_fast_path() {
    let expr = SpanExpr::Before {
        a: Box::new(SpanExpr::PositionFilter {
            inner: Box::new(SpanExpr::Term(0)),
            filter: SpanPositionFilter::First(PositionFilterBound::Absolute(3)),
        }),
        b: Box::new(SpanExpr::Term(1)),
    };

    assert!(expr.to_fast_path_root().is_some());
}

#[test]
fn nested_doc_relative_filters_require_advanced_path() {
    let expr = SpanExpr::Before {
        a: Box::new(SpanExpr::PositionFilter {
            inner: Box::new(SpanExpr::Term(0)),
            filter: SpanPositionFilter::Last(PositionFilterBound::Absolute(3)),
        }),
        b: Box::new(SpanExpr::Term(1)),
    };

    assert!(expr.to_fast_path_root().is_none());
}

#[test]
fn fast_path_root_keeps_top_level_filter_separate() {
    let filter = SpanPositionFilter::Last(PositionFilterBound::Percent(10));
    let expr = SpanExpr::PositionFilter {
        inner: Box::new(SpanExpr::Ordered(vec![SpanExpr::Term(0), SpanExpr::Term(1)])),
        filter,
    };
    let (query, top) = expr.to_fast_path_root().unwrap();
    assert_eq!(query, SpanQuery::Ordered(vec![SpanQuery::Term(0), SpanQuery::Term(1)]));
    assert_eq!(top, Some(filter));

    let at_least = SpanExpr::AtLeast { min: 1, children: vec![SpanExpr::Term(0), SpanExpr::Term(1)] };
    assert!(at_least.to_fast_path_root().is_none());
}

#[test]
fn nested_absolute_filter_becomes_within_positions() {
    let expr = SpanExpr::Before {
        a: Box::new(SpanExpr::PositionFilter {
            inner: Box::new(SpanExpr::Term(0)),
            filter: SpanPositionFilter::First(PositionFilterBound::Absolute(3)),
        }),
        b: Box::new(SpanExpr::Term(1)),
    };
    let (query, top) = expr.to_fast_path_root().unwrap();
    assert_eq!(
        query,
        SpanQuery::Before {
            a: Box::new(SpanQuery::WithinPositions { inner: Box::new(SpanQuery::Term(0)), lo: 0, hi: 2 }),
            b: Box::new(SpanQuery::Term(1)),
        }
    );
    assert_eq!(top, None);
}

#[test]
fn resolves_at_least_two_to_pairwise_unordered_disjunction() {
    let expr = SpanExpr::AtLeast {
        min: 2,
        children: vec![SpanExpr::Term(0), SpanExpr::Term(1), SpanExpr::Term(2)],
    };

    assert_eq!(
        expr.resolve(10),
        SpanQuery::Or(vec![
            SpanQuery::Unordered(vec![SpanQuery::Term(0), SpanQuery::Term(1)]),
            SpanQuery::Unordered(vec![SpanQuery::Term(0), SpanQuery::Term(2)]),
            SpanQuery::Unordered(vec![SpanQuery::Term(1), SpanQuery::Term(2)]),
        ])
    );
}

#[test]
fn empty_runtime_filter_resolves_to_empty_query() {
    let expr = SpanExpr::PositionFilter {
        inner: Box::new(SpanExpr::Term(0)),
        filter: SpanPositionFilter::Middle { percent: 0 },
    };

    assert_eq!(expr.resolve(10), SpanQuery::Empty);
}

#[test]
fn relative_filter_resolves_against_document_length() {
    let expr = SpanExpr::PositionFilter {
        inner: Box::new(SpanExpr::Term(0)),
        filter: SpanPositionFilter::Last(PositionFilterBound::Absolute(4)),
    };
    assert_eq!(
        expr.resolve(10),
        SpanQuery::WithinPositions { inner: Box::new(SpanQuery::Term(0)), lo: 6, hi: 9 }
    );
    assert!(expr.needs_doc_length());
}

#[test]
fn all_terms_required_follows_operators() {
    let and = SpanExpr::Ordered(vec![SpanExpr::Term(0), SpanExpr::Term(1)]);
    assert!(and.all_terms_required());
    let or = SpanExpr::Or(vec![SpanExpr::Term(0), SpanExpr::Term(1)]);
    assert!(!or.all_terms_required());
    let all = SpanExpr::AtLeast { min: 2, children: vec![SpanExpr::Term(0), SpanExpr::Term(1)] };
    assert!(all.all_terms_required());
    let some = SpanExpr::AtLeast { min: 1, children: vec![SpanExpr::Term(0), SpanExpr::Term(1)] };
    assert!(!some.all_terms_required());
    let not = SpanExpr::NotContaining { big: Box::new(SpanExpr::Term(0)), little: Box::new(SpanExpr::Term(1)) };
    assert!(!not.all_terms_required());
}

#[test]
fn percent_windows_are_exact_on_long_documents() {
    let len: u32 = 50_000_000;
    let first = SpanPositionFilter::First(PositionFilterBound::Percent(100)).resolve_window(len).unwrap();
    assert_eq!((first.lo, first.hi), (0, len - 1));
    let last = SpanPositionFilter::Last(PositionFilterBound::Percent(50)).resolve_window(len).unwrap();
    assert_eq!((last.lo, last.hi), (25_000_000, len - 1));
    let first_big = SpanPositionFilter::First(PositionFilterBound::Percent(25)).resolve_window(u32::MAX).unwrap();
    assert_eq!(first_big.hi, 1_073_741_823);
}
