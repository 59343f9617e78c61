use tin::options::{
    collect_tokens, compile_options, parse_folding, parse_graphemes, parse_long_tokens,
    parse_position_gaps, parse_tokenizer, tokenize, TokenizeOptions,
};
use tin::pipeline::{default_pipeline, default_pipeline_spec};
use tin::spec::{
    Folding, GraphemeMode, LongTokenMode, LongTokenSpec, PositionGapMode, TokenizerPipelineSpec,
    TokenizerPipelineSpecError, TokenizerSpec, MIN_TOKEN_BYTES,
};
use tin::term_edit::{TermSetEdit, TermSetEditError};
use tin::token::{Classification, Token, Tokenizer};
use tin::whitespace::Whitespace;

#[test]
fn default_is_the_sql_default_tuple() {
    assert_eq!(
        TokenizerPipelineSpec::tin_default(),
        TokenizerPipelineSpec {
            tokenizer: TokenizerSpec::Unicode,
            case_folding: Folding::Fold,
            accent_folding: Folding::Fold,
            long_tokens: LongTokenSpec { mode: LongTokenMode::Split, max_bytes: 256 },
            graphemes: GraphemeMode::Emoji,
            position_gaps: PositionGapMode::Preserve,
        }
    );
}

#[test]
fn validate_rejects_a_ceiling_smaller_than_one_utf8_scalar() {
    let mut spec = TokenizerPipelineSpec::tin_default();
    spec.long_tokens.max_bytes = MIN_TOKEN_BYTES - 1;
    assert!(matches!(spec.validate(), Err(TokenizerPipelineSpecError::MaxTokenBytesTooSmall)));
}

#[test]
fn legacy_default_pins_pre_reloptions_behavior() {
    assert_eq!(
        TokenizerPipelineSpec::legacy_tin_default(),
        TokenizerPipelineSpec {
            tokenizer: TokenizerSpec::Unicode,
            case_folding: Folding::Fold,
            accent_folding: Folding::Preserve,
            long_tokens: LongTokenSpec { mode: LongTokenMode::Truncate, max_bytes: 256 },
            graphemes: GraphemeMode::Discard,
            position_gaps: PositionGapMode::Collapse,
        }
    );
}

#[test]
fn validate_accepts_the_smallest_ceiling_and_compile_follows_validate() {
    let mut spec = TokenizerPipelineSpec::tin_default();
    spec.long_tokens.max_bytes = MIN_TOKEN_BYTES;
    assert_eq!(spec.validate(), Ok(()));
    assert!(spec.compile().is_ok());
    spec.long_tokens.max_bytes = 0;
    assert!(spec.compile().is_err());
    assert!(!TokenizerPipelineSpecError::MaxTokenBytesTooSmall.message().is_empty());
}

#[test]
fn test_whitespace() {
    let whitespace = Whitespace;
    let mut tokenizer = whitespace.tokenize("Hello, world!");
    assert_eq!(tokenizer.next().unwrap(), Token::with_classification("Hello,", 0, Classification::Unknown));
    assert_eq!(tokenizer.next().unwrap(), Token::with_classification("world!", 1, Classification::Unknown));
    assert_eq!(tokenizer.next(), None);
}

#[test]
fn whitespace_splits_on_unicode_white_space_runs() {
    let mut tokenizer = Whitespace.tokenize("  a\u{3000}\u{a0}b\n\tc  ");
    let mut texts = Vec::new();
    while let Some(t) = tokenizer.next() {
        texts.push((t.text, t.pos));
    }
    assert_eq!(texts, vec![("a".to_string(), 0), ("b".to_string(), 1), ("c".to_string(), 2)]);
    assert_eq!(tokenizer.positions_consumed(), 3);
}

#[test]
fn parses_all_tokenizer_options() {
    let spec = TokenizeOptions {
        tokenizer: "whitespace",
        case_folding: "preserve",
        accent_folding: "preserve",
        long_tokens: "truncate",
        max_token_bytes: 32,
        graphemes: "retain",
        position_gaps: "collapse",
    }
    .into_spec()
    .unwrap();
    assert_eq!(spec.tokenizer, TokenizerSpec::Whitespace);
    assert_eq!(spec.case_folding, Folding::Preserve);
    assert_eq!(spec.long_tokens.max_bytes, 32);
}

#[test]
fn default_tokens_fold_case_and_accents() {
    assert_eq!(collect_tokens("Beer JALAPEÑO", TokenizerPipelineSpec::tin_default()), ["beer", "jalapeno"]);
}

#[test]
fn token_limit_domain_is_checked() {
    let options = TokenizeOptions {
        tokenizer: "unicode",
        case_folding: "fold",
        accent_folding: "fold",
        long_tokens: "split",
        max_token_bytes: 3,
        graphemes: "emoji",
        position_gaps: "preserve",
    };
    assert!(options.into_spec().is_err());
}

#[test]
fn option_errors_name_the_option_and_the_accepted_values() {
    let options = TokenizeOptions {
        tokenizer: "unicode",
        case_folding: "fold",
        accent_folding: "fold",
        long_tokens: "split",
        max_token_bytes: 2693,
        graphemes: "emoji",
        position_gaps: "preserve",
    };
    assert_eq!(options.into_spec(), Err("max_token_bytes must be between 4 and 2692".to_string()));
    assert!(parse_tokenizer("ngram").unwrap_err().contains("\"ngram\""));
    assert_eq!(parse_tokenizer("unicode"), Ok(TokenizerSpec::Unicode));
    assert!(parse_folding("case_folding", "upper").unwrap_err().starts_with("invalid case_folding value \"upper\""));
    assert_eq!(parse_folding("accent_folding", "fold"), Ok(Folding::Fold));
}

#[test]
fn term_edits_validate_and_analyze() {
    assert_eq!(
        TermSetEdit::from_bound_arrays(Some(vec!["x".into()]), Some(vec!["y".into()])),
        Err(TermSetEditError::ConflictingEdits)
    );
    assert_eq!(TermSetEdit::from_bound_arrays(Some(Vec::new()), None).unwrap(), TermSetEdit::Unchanged);
    let raw = TermSetEdit::Add(vec!["alpha beta".into(), "...".into()]);
    assert_eq!(
        raw.analyzed_with(|value: String| {
            value
                .split_whitespace()
                .filter(|token| token.chars().any(char::is_alphanumeric))
                .map(str::to_owned)
                .collect::<Vec<_>>()
        }),
        TermSetEdit::Add(vec!["alpha".into(), "beta".into()])
    );
}

#[test]
fn replace_edit_that_analyzes_to_nothing_is_no_edit() {
    let raw = TermSetEdit::Replace(vec!["...".into()]);
    assert_eq!(raw.analyzed_with(|_value: String| Vec::new()), TermSetEdit::Unchanged);
    assert_eq!(
        TermSetEdit::from_bound_arrays(None, Some(vec!["y".into()])),
        Ok(TermSetEdit::Replace(vec!["y".into()]))
    );
    assert_eq!(TermSetEdit::from_bound_arrays(None, None), Ok(TermSetEdit::Unchanged));
}

#[test]
fn default_pipeline_matches_default_spec() {
    assert_eq!(default_pipeline_spec(), TokenizerPipelineSpec::tin_default());
    let pipeline = default_pipeline();
    assert_eq!(pipeline.spec(), TokenizerPipelineSpec::tin_default());
    let tokens = pipeline.tokenize("Café 😀 au lait");
    let got: Vec<(String, u32)> = tokens.into_iter().map(|t| (t.text, t.pos)).collect();
    assert_eq!(
        got,
        vec![("cafe".to_string(), 0), ("😀".to_string(), 1), ("au".to_string(), 2), ("lait".to_string(), 3)]
    );
}

#[test]
fn pipeline_splits_long_tokens_within_the_ceiling() {
    let mut spec = TokenizerPipelineSpec::tin_default();
    spec.long_tokens.max_bytes = 4;
    let got = collect_tokens("abcdefghij", spec);
    assert_eq!(got, ["abcd", "efgh", "ij"]);
    spec.long_tokens.mode = LongTokenMode::Truncate;
    assert_eq!(collect_tokens("abcdefghij", spec), ["abcd"]);
    spec.long_tokens.mode = LongTokenMode::Discard;
    assert!(collect_tokens("abcdefghij", spec).is_empty());
}

#[test]
fn stop_words_are_exact_trimmed_and_deduplicated() {
    let words = tin::stop_words::ScoreStopWords::from_csv(" the,rare , ,\twalnut\n,the ").unwrap();
    assert!(words.contains("the"));
    assert!(words.contains("rare"));
    assert!(words.contains("walnut"));
    assert!(!words.contains("Rare"));
    assert!(tin::stop_words::ScoreStopWords::from_csv(" , \t,\n").is_none());
}

#[test]
fn error_messages_match_the_sql_errors() {
    assert_eq!(TermSetEditError::ConflictingEdits.message(), "term_add and term_replace cannot both be non-NULL");
    assert_eq!(TokenizerPipelineSpecError::MaxTokenBytesTooSmall.message(), "max_token_bytes must be at least 4");
}

fn sql_default_options() -> TokenizeOptions<'static> {
    TokenizeOptions {
        tokenizer: "unicode",
        case_folding: "fold",
        accent_folding: "fold",
        long_tokens: "split",
        max_token_bytes: 256,
        graphemes: "emoji",
        position_gaps: "preserve",
    }
}

#[test]
fn sql_tokenize_with_default_options_folds_words() {
    assert_eq!(
        tokenize(Some("Beer JALAPEÑO"), sql_default_options()),
        Ok(vec!["beer".to_string(), "jalapeno".to_string()])
    );
}

#[test]
fn sql_tokenize_of_no_text_gives_no_tokens() {
    assert_eq!(tokenize(None, sql_default_options()), Ok(Vec::new()));
}

#[test]
fn sql_tokenize_reports_the_first_invalid_option() {
    let mut options = sql_default_options();
    options.graphemes = "keep";
    options.position_gaps = "none";
    assert_eq!(
        tokenize(Some("beer"), options),
        Err("invalid graphemes value \"keep\"; expected discard, emoji, or retain".to_string())
    );
    options.max_token_bytes = 3;
    assert_eq!(
        tokenize(None, options),
        Err("max_token_bytes must be between 4 and 2692".to_string())
    );
}

#[test]
fn sql_tokenize_matches_collect_tokens_on_the_same_spec() {
    let mut options = sql_default_options();
    options.tokenizer = "whitespace";
    options.case_folding = "preserve";
    options.long_tokens = "truncate";
    options.max_token_bytes = 4;
    let spec = options.into_spec().unwrap();
    let text = "Wanderlust CAFÉ ok";
    let got = tokenize(Some(text), options).unwrap();
    assert_eq!(got, collect_tokens(text, spec));
    assert_eq!(got, vec!["Wand".to_string(), "CAFE".to_string(), "ok".to_string()]);
}

#[test]
fn compile_options_builds_the_named_pipeline() {
    let mut options = sql_default_options();
    options.position_gaps = "collapse";
    let pipeline = compile_options(options).unwrap();
    assert_eq!(pipeline.spec().position_gaps, PositionGapMode::Collapse);
    assert_eq!(pipeline.spec().long_tokens.max_bytes, 256);
    options.case_folding = "lower";
    assert_eq!(
        compile_options(options).err(),
        Some("invalid case_folding value \"lower\"; expected preserve or fold".to_string())
    );
}

#[test]
fn each_option_parser_names_its_accepted_words() {
    assert_eq!(parse_long_tokens("discard"), Ok(LongTokenMode::Discard));
    assert_eq!(
        parse_long_tokens("cut"),
        Err("invalid long_tokens value \"cut\"; expected truncate, discard, or split".to_string())
    );
    assert_eq!(parse_graphemes("retain"), Ok(GraphemeMode::Retain));
    assert_eq!(parse_position_gaps("preserve"), Ok(PositionGapMode::Preserve));
    assert_eq!(
        parse_position_gaps("gap"),
        Err("invalid position_gaps value \"gap\"; expected collapse or preserve".to_string())
    );
}

#[test]
fn default_spec_is_the_default_pipeline() {
    assert_eq!(TokenizerPipelineSpec::default(), TokenizerPipelineSpec::tin_default());
}
