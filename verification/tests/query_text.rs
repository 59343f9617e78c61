use tin::match_positions::MatchPosition;
use tin::query_lang::{
    classify_term, parse_wildcard_parts, unescape_phrase_term, unescape_wildcard_chars, ClassifiedTerm, ImplicitOp,
    WildcardPart,
};
use tin::regex::{full_term_regex_pattern, CompiledRegex};

#[test]
fn compiled_regex_uses_full_term_semantics() {
    let regex = CompiledRegex::new("alp[a-z]*").expect("regex should compile");

    assert!(regex.is_match("alpha"));
    assert!(!regex.is_match("xalpha"));
    assert!(!regex.is_match("alpha-suffix"));
}

#[test]
fn pure_prefix_recognizes_only_literal_dot_star() {
    let prefix = |pattern: &str| CompiledRegex::new(pattern).unwrap().pure_prefix();

    assert_eq!(prefix("foo.*"), Some("foo".into()));
    assert_eq!(prefix(r"l\.a.*"), Some("l.a".into()));
    assert_eq!(prefix("foo.*bar.*"), None);
    assert_eq!(prefix("foo."), None);
    assert_eq!(prefix(".*foo"), None);
    assert_eq!(prefix(".*"), None);
    assert_eq!(prefix("fo?o.*"), None);
}

#[test]
fn invalid_regex_names_the_pattern() {
    let err = CompiledRegex::new("a(b").err().expect("unbalanced group is rejected");
    assert!(err.to_string().starts_with("invalid regex \"a(b\": "));
    let ok = CompiledRegex::new("a+b").unwrap();
    assert_eq!(ok.source(), "a+b");
}

#[test]
fn full_term_pattern_is_anchored() {
    assert_eq!(full_term_regex_pattern("a|b"), r"\A(?:a|b)\z");
}

#[test]
fn classify_plain_and_wildcard_terms() {
    assert_eq!(classify_term("beer"), ClassifiedTerm::Term("beer".into()));
    assert_eq!(classify_term(r"foo\*bar"), ClassifiedTerm::Term("foo*bar".into()));
    assert_eq!(
        classify_term("fo?o*"),
        ClassifiedTerm::Wildcard(vec![
            WildcardPart::Literal("fo".into()),
            WildcardPart::Single,
            WildcardPart::Literal("o".into()),
            WildcardPart::Any,
        ])
    );
    // A backslash before anything but `*` or `?` is an ordinary character.
    assert_eq!(classify_term(r"a\\"), ClassifiedTerm::Term(r"a\\".into()));
}

#[test]
fn wildcard_parts_keep_escaped_metacharacters_literal() {
    assert_eq!(
        parse_wildcard_parts(r"*a\?b*"),
        vec![WildcardPart::Any, WildcardPart::Literal("a?b".into()), WildcardPart::Any]
    );
    assert_eq!(parse_wildcard_parts(r"x\y"), vec![WildcardPart::Literal(r"x\y".into())]);
    assert_eq!(parse_wildcard_parts(""), vec![]);
}

#[test]
fn unescaping_terms_and_phrases() {
    assert_eq!(unescape_wildcard_chars(r"a\*b\?c\d"), r"a*b?c\d");
    assert_eq!(unescape_wildcard_chars("plain"), "plain");
    assert_eq!(unescape_phrase_term(r#"a\"b\[c\]\_d\\e"#), r#"a"b[c]_d\e"#);
    assert_eq!(unescape_phrase_term(r"trailing\"), r"trailing\");
    assert_eq!(unescape_phrase_term("plain"), "plain");
}

#[test]
fn implicit_operator_is_plain_data() {
    assert_ne!(ImplicitOp::And, ImplicitOp::Or);
}

#[test]
fn match_positions_are_inclusive_and_sql_typed() {
    assert_eq!(MatchPosition::point("beer", 3), MatchPosition { part: "beer".into(), start: 3, end: 3 });
    assert_eq!(MatchPosition::span("beer cheese", 3, 4), MatchPosition { part: "beer cheese".into(), start: 3, end: 4 });
    assert_eq!(MatchPosition::point("x", u32::MAX).start, -1);
}

#[test]
fn compiled_regexes_compare_by_pattern() {
    let a = CompiledRegex::new("ab+").unwrap();
    let b = CompiledRegex::new("ab+").unwrap();
    let c = CompiledRegex::new("ab*").unwrap();
    assert!(a == b);
    assert!(a != c);
}

#[test]
fn only_star_and_question_are_escaped() {
    assert_eq!(classify_term(r"\\*"), ClassifiedTerm::Term(r"\*".into()));
    assert_eq!(classify_term(r"a\*b"), ClassifiedTerm::Term("a*b".into()));
    assert_eq!(classify_term(r"\d?"), ClassifiedTerm::Wildcard(vec![WildcardPart::Literal(r"\d".into()), WildcardPart::Single]));
}

#[test]
fn pure_prefix_refuses_class_escapes() {
    let prefix = |pattern: &str| CompiledRegex::new(pattern).unwrap().pure_prefix();
    assert_eq!(prefix(r"foo\d.*"), None);
    assert_eq!(prefix(r"a\w.*"), None);
    assert_eq!(prefix(r"a\\b.*"), Some(r"a\b".into()));
    assert_eq!(prefix(r"c\+\+.*"), Some("c++".into()));
}
