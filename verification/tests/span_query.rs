use tin::interval::Interval;
use tin::query::{SpanError, SpanQuery};
use tin::solver::SpanSolver;

#[test]
fn display_uses_internal_operator_tree() {
    let q = SpanQuery::MaxWidth {
        max_width: 7,
        inner: Box::new(SpanQuery::Or(vec![SpanQuery::Term(0), SpanQuery::Term(1)])),
    };

    assert_eq!(q.to_string(), "MAXWIDTH(7, OR(TERM(0), TERM(1)))");
}

#[test]
fn display_with_terms_substitutes_labels() {
    let q = SpanQuery::MaxWidth {
        max_width: 7,
        inner: Box::new(SpanQuery::Or(vec![SpanQuery::Term(0), SpanQuery::Term(1)])),
    };

    assert_eq!(
        q.display_with_terms(&["l.a", "nood1e"]).to_string(),
        "MAXWIDTH(7, OR(l.a, nood1e))"
    );
}

#[test]
fn display_falls_back_to_term_index_without_label() {
    let q = SpanQuery::Ordered(vec![SpanQuery::Term(0), SpanQuery::Term(2)]);
    assert_eq!(q.display_with_terms(&["a"]).to_string(), "ORDERED(a, TERM(2))");
}

#[test]
fn point_interval() {
    let p = Interval::point(5);
    assert_eq!(p.start, 5);
    assert_eq!(p.end, 5);
    assert_eq!(p.width(), 1);
}

#[test]
fn width() {
    assert_eq!(Interval::new(2, 8).width(), 7);
    assert_eq!(Interval::new(0, 0).width(), 1);
}

#[test]
fn contains() {
    let big = Interval::new(2, 8);
    let small = Interval::new(3, 6);
    assert!(big.contains(small));
    assert!(!small.contains(big));
    assert!(big.contains(big)); // self-containment
}

#[test]
fn overlaps() {
    assert!(Interval::new(2, 5).overlaps(Interval::new(4, 8)));
    assert!(Interval::new(4, 8).overlaps(Interval::new(2, 5)));
    assert!(!Interval::new(2, 3).overlaps(Interval::new(5, 8)));
    assert!(Interval::new(2, 5).overlaps(Interval::new(5, 8))); // touching
}

#[test]
fn strictly_before() {
    assert!(Interval::new(2, 3).strictly_before(Interval::new(5, 8)));
    assert!(!Interval::new(2, 5).strictly_before(Interval::new(5, 8)));
}

#[test]
fn ordering() {
    let mut intervals = vec![
        Interval::new(5, 8),
        Interval::new(2, 4),
        Interval::new(2, 3),
        Interval::new(5, 6),
    ];
    intervals.sort();
    assert_eq!(
        intervals,
        vec![
            Interval::new(2, 3),
            Interval::new(2, 4),
            Interval::new(5, 6),
            Interval::new(5, 8),
        ]
    );
}

#[test]
fn sorts_before_or_equal_matches_derived_order() {
    let a = Interval::new(2, 4);
    let b = Interval::new(2, 3);
    let c = Interval::new(5, 6);
    assert!(b.sorts_before_or_equal(a));
    assert!(!a.sorts_before_or_equal(b));
    assert!(a.sorts_before_or_equal(c));
    assert!(a.sorts_before_or_equal(a));
}

#[test]
fn phrase_sugar() {
    let q = SpanQuery::phrase([0, 1, 2]);
    assert!(matches!(q, SpanQuery::MaxGaps { max_gaps: 0, .. }));
    assert_eq!(q.num_terms(), 3);
}

#[test]
fn validate_out_of_range() {
    let q = SpanQuery::Term(5);
    assert!(q.validate(3).is_err());
    assert!(q.validate(6).is_ok());
}

#[test]
fn validate_too_few_children() {
    let q = SpanQuery::Ordered(vec![SpanQuery::Term(0)]);
    assert!(q.validate(1).is_err());
}

#[test]
fn num_terms_nested() {
    let q = SpanQuery::Ordered(vec![
        SpanQuery::Term(0),
        SpanQuery::Or(vec![SpanQuery::Term(3), SpanQuery::Term(1)]),
    ]);
    assert_eq!(q.num_terms(), 4);
}

#[test]
fn validate_reports_each_error_kind() {
    assert_eq!(
        SpanQuery::Term(5).validate(3),
        Err(SpanError::TermIndexOutOfRange { index: 5, num_terms: 3 })
    );
    assert_eq!(
        SpanQuery::Unordered(vec![SpanQuery::Term(0)]).validate(1),
        Err(SpanError::TooFewChildren { min: 2, got: 1 })
    );
    assert_eq!(SpanQuery::Or(vec![]).validate(1), Err(SpanError::EmptyQuery));
    assert_eq!(SpanQuery::Or(vec![SpanQuery::Term(0)]).validate(1), Ok(()));
    assert_eq!(SpanQuery::Empty.validate(0), Ok(()));
}

#[test]
fn readme_phrase_example() {
    let query = SpanQuery::phrase([0, 1, 2]);
    let mut solver = SpanSolver::new(&query).unwrap();
    let positions = [vec![0, 10], vec![1, 11], vec![2, 12]];
    let matches = solver.intervals(&positions);
    assert_eq!(matches, vec![Interval::new(0, 2), Interval::new(10, 12)]);
    let other_doc = [vec![5], vec![6], vec![20]];
    assert_eq!(solver.span_freq(&other_doc), 0);
    assert_eq!(solver.num_terms(), 3);
}

#[test]
fn solver_rejects_invalid_query() {
    let q = SpanQuery::Unordered(vec![SpanQuery::Term(0)]);
    assert!(SpanSolver::new(&q).is_err());
}

fn run(q: SpanQuery, positions: Vec<Vec<u32>>) -> Vec<Interval> {
    let mut solver = SpanSolver::new(&q).unwrap();
    solver.intervals(&positions)
}

#[test]
fn term_yields_point_intervals() {
    let got = run(SpanQuery::Term(0), vec![vec![1, 4, 9]]);
    assert_eq!(got, vec![Interval::point(1), Interval::point(4), Interval::point(9)]);
}

#[test]
fn empty_query_matches_nothing() {
    assert_eq!(run(SpanQuery::Empty, vec![vec![1]]), vec![]);
}

#[test]
fn ordered_finds_minimal_windows() {
    let q = SpanQuery::Ordered(vec![SpanQuery::Term(0), SpanQuery::Term(1)]);
    let got = run(q, vec![vec![0, 2], vec![3, 5]]);
    assert_eq!(got, vec![Interval::new(2, 3)]);
}

#[test]
fn unordered_accepts_either_order() {
    let q = SpanQuery::Unordered(vec![SpanQuery::Term(0), SpanQuery::Term(1)]);
    let got = run(q, vec![vec![5], vec![2, 9]]);
    assert_eq!(got, vec![Interval::new(2, 5), Interval::new(5, 9)]);
}

#[test]
fn or_keeps_only_minimal_intervals() {
    let q = SpanQuery::Or(vec![
        SpanQuery::Term(0),
        SpanQuery::Ordered(vec![SpanQuery::Term(0), SpanQuery::Term(1)]),
    ]);
    let got = run(q, vec![vec![3], vec![4]]);
    assert_eq!(got, vec![Interval::point(3)]);
}

#[test]
fn sloppy_phrase_allows_gaps() {
    let q = SpanQuery::sloppy_phrase([0, 1], 1);
    let got = run(q, vec![vec![0, 10], vec![2, 13]]);
    assert_eq!(got, vec![Interval::new(0, 2)]);
}

#[test]
fn max_width_filters_wide_matches() {
    let q = SpanQuery::MaxWidth {
        max_width: 3,
        inner: Box::new(SpanQuery::Ordered(vec![SpanQuery::Term(0), SpanQuery::Term(1)])),
    };
    let got = run(q, vec![vec![0, 10], vec![5, 12]]);
    assert_eq!(got, vec![Interval::new(10, 12)]);
}

#[test]
fn first_n_restricts_to_prefix() {
    let q = SpanQuery::first_n(SpanQuery::Term(0), 3);
    let got = run(q, vec![vec![1, 2, 3, 7]]);
    assert_eq!(got, vec![Interval::point(1), Interval::point(2)]);
}

#[test]
fn containing_and_not_containing_partition_big() {
    let big = || Box::new(SpanQuery::Ordered(vec![SpanQuery::Term(0), SpanQuery::Term(1)]));
    let positions = vec![vec![0, 10], vec![4, 12], vec![2]];
    let with = run(
        SpanQuery::Containing { big: big(), little: Box::new(SpanQuery::Term(2)) },
        positions.clone(),
    );
    let without = run(
        SpanQuery::NotContaining { big: big(), little: Box::new(SpanQuery::Term(2)) },
        positions,
    );
    assert_eq!(with, vec![Interval::new(0, 4)]);
    assert_eq!(without, vec![Interval::new(10, 12)]);
}

#[test]
fn before_and_after_relations() {
    let positions = vec![vec![1, 8], vec![5]];
    let before = run(
        SpanQuery::Before { a: Box::new(SpanQuery::Term(0)), b: Box::new(SpanQuery::Term(1)) },
        positions.clone(),
    );
    let after = run(
        SpanQuery::After { a: Box::new(SpanQuery::Term(0)), b: Box::new(SpanQuery::Term(1)) },
        positions,
    );
    assert_eq!(before, vec![Interval::point(1)]);
    assert_eq!(after, vec![Interval::point(8)]);
}

#[test]
fn results_are_sorted() {
    let q = SpanQuery::Or(vec![SpanQuery::Term(0), SpanQuery::Term(1)]);
    let got = run(q, vec![vec![1, 7], vec![3]]);
    let mut sorted = got.clone();
    sorted.sort();
    assert_eq!(got, sorted);
    assert_eq!(got, vec![Interval::point(1), Interval::point(3), Interval::point(7)]);
}

#[test]
fn results_form_an_antichain_over_strict_positions() {
    let q = SpanQuery::Or(vec![
        SpanQuery::Unordered(vec![SpanQuery::Term(0), SpanQuery::Term(1)]),
        SpanQuery::Ordered(vec![SpanQuery::Term(1), SpanQuery::Term(2)]),
        SpanQuery::Term(2),
    ]);
    let got = run(q, vec![vec![1, 5, 9], vec![2, 6, 7], vec![3, 8]]);
    for (i, a) in got.iter().enumerate() {
        for (j, b) in got.iter().enumerate() {
            if i != j {
                assert!(!a.contains(*b), "{a:?} contains {b:?}");
            }
        }
    }
    for w in got.windows(2) {
        assert!(w[0].start < w[1].start && w[0].end < w[1].end);
    }
}

#[test]
fn duplicate_positions_repeat_point_intervals() {
    assert_eq!(run(SpanQuery::Term(0), vec![vec![3, 3]]), vec![Interval::point(3), Interval::point(3)]);
}

#[test]
fn span_errors_render_their_messages() {
    assert_eq!(
        SpanError::TermIndexOutOfRange { index: 5, num_terms: 3 }.to_string(),
        "term index 5 out of range (num_terms = 3)"
    );
    assert_eq!(SpanError::TooFewChildren { min: 2, got: 1 }.to_string(), "operator requires at least 2 children, got 1");
    assert_eq!(SpanError::EmptyQuery.to_string(), "empty query");
}

#[test]
fn phrase_fast_path_finds_every_occurrence() {
    // The anchor is the rarest term; every occurrence is still reported.
    let query = SpanQuery::phrase([0, 1]);
    let positions = vec![vec![1, 3, 5, 7], vec![2, 8]];
    assert_eq!(run(query, positions), vec![Interval::new(1, 2), Interval::new(7, 8)]);
}

#[test]
fn phrase_fast_path_with_no_occurrence_is_empty() {
    let query = SpanQuery::phrase([0, 1, 2]);
    let positions = vec![vec![0, 4], vec![1, 6], vec![3, 7]];
    assert!(run(query, positions).is_empty());
}

#[test]
fn term_span_freq_counts_every_position() {
    let mut solver = SpanSolver::new(&SpanQuery::Term(1)).unwrap();
    let positions = [vec![0], vec![2, 3, 5, 8]];
    assert_eq!(solver.span_freq(&positions), 4);
}

#[test]
fn phrase_span_freq_counts_occurrences() {
    let mut solver = SpanSolver::new(&SpanQuery::phrase([0, 1])).unwrap();
    let positions = [vec![1, 3, 5, 7], vec![2, 4, 8]];
    assert_eq!(solver.span_freq(&positions), 3);
}

#[test]
fn ordered_tightens_to_the_latest_start() {
    let q = SpanQuery::Ordered(vec![SpanQuery::Term(0), SpanQuery::Term(1)]);
    assert_eq!(run(q, vec![vec![0, 1], vec![2]]), vec![Interval::new(1, 2)]);
}

#[test]
fn repeated_unordered_operands_take_distinct_occurrences() {
    let q = SpanQuery::Unordered(vec![SpanQuery::Term(0), SpanQuery::Term(0)]);
    assert_eq!(run(q, vec![vec![1, 4, 6]]), vec![Interval::new(1, 4), Interval::new(4, 6)]);
}

#[test]
fn or_drops_a_child_interval_containing_an_earlier_one() {
    let q = SpanQuery::Or(vec![
        SpanQuery::Term(0),
        SpanQuery::Ordered(vec![SpanQuery::Term(0), SpanQuery::Term(1)]),
    ]);
    assert_eq!(run(q, vec![vec![0], vec![1]]), vec![Interval::point(0)]);
}

#[test]
fn after_keeps_only_intervals_preceded_by_the_other_side() {
    let q = SpanQuery::After { a: Box::new(SpanQuery::Term(0)), b: Box::new(SpanQuery::Term(1)) };
    assert_eq!(run(q, vec![vec![1, 5], vec![3]]), vec![Interval::point(5)]);
}

#[test]
fn max_gaps_keeps_only_tight_windows() {
    let q = SpanQuery::MaxGaps {
        max_gaps: 0,
        inner: Box::new(SpanQuery::Ordered(vec![SpanQuery::Term(0), SpanQuery::Term(1)])),
    };
    assert_eq!(run(q, vec![vec![0, 3], vec![1, 5]]), vec![Interval::new(0, 1)]);
}
