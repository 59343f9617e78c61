//! Tokenization options given as SQL text arguments, checked and turned
//! into a pipeline specification.
use vstd::prelude::*;
use crate::spec::{
    Folding, GraphemeMode, LongTokenMode, LongTokenSpec, PositionGapMode, TokenizerPipelineSpec,
    TokenizerSpec, MIN_TOKEN_BYTES, spec_valid,
};
use crate::long_tokens::bytes_of;
use crate::pipeline::pipeline_tokens;
use crate::unicode::{cluster_class, emoji_known, scan_cluster};
use crate::token::Classification;

verus! {

/// Largest byte ceiling the SQL functions accept.
pub const MAX_TOKEN_BYTES: usize = 2692;

/// The quoted, escaped rendering of a string that Rust's `Debug` produces.
pub uninterp spec fn debug_text(s: Seq<char>) -> Seq<char>;

/// `s` rendered as `Debug` renders a string: quoted and escaped.
#[verifier::external_body]
fn debug_quoted(s: &str) -> (r: String)
    ensures
        r@ == debug_text(s@),
{
    format!("{s:?}")
}

/// Whether two strings hold the same characters.
pub fn str_equals(a: &str, b: &str) -> (r: bool)
    ensures
        r == (a@ == b@),
{
    let n = a.unicode_len();
    if n != b.unicode_len() {
        return false;
    }
    let mut i: usize = 0;
    while i < n
        invariant
            n == a@.len(),
            n == b@.len(),
            i <= n,
            forall|k: int| 0 <= k < i ==> a@[k] == b@[k],
        decreases n - i,
    {
        if a.get_char(i) != b.get_char(i) {
            return false;
        }
        i += 1;
    }
    assert(a@ =~= b@);
    true
}

/// The message for a value outside an option's accepted words.
pub open spec fn invalid_message(option: Seq<char>, value: Seq<char>, expected: Seq<char>) -> Seq<char> {
    "invalid "@ + option + " value "@ + debug_text(value) + "; expected "@ + expected
}

/// Builds the message for a value outside an option's accepted words.
fn invalid_value(option: &str, value: &str, expected: &str) -> (r: String)
    ensures
        r@ == invalid_message(option@, value@, expected@),
{
    let mut out = String::from_str("invalid ");
    out.append(option);
    out.append(" value ");
    let quoted = debug_quoted(value);
    out.append(quoted.as_str());
    out.append("; expected ");
    out.append(expected);
    out
}

/// The base tokenizer a value names.
pub open spec fn tokenizer_result(v: Seq<char>) -> Result<TokenizerSpec, Seq<char>> {
    if v == "unicode"@ {
        Ok(TokenizerSpec::Unicode)
    } else if v == "whitespace"@ {
        Ok(TokenizerSpec::Whitespace)
    } else {
        Err(invalid_message("tokenizer"@, v, "unicode or whitespace"@))
    }
}

/// The folding a value names, for the option called `option`.
pub open spec fn folding_result(option: Seq<char>, v: Seq<char>) -> Result<Folding, Seq<char>> {
    if v == "preserve"@ {
        Ok(Folding::Preserve)
    } else if v == "fold"@ {
        Ok(Folding::Fold)
    } else {
        Err(invalid_message(option, v, "preserve or fold"@))
    }
}

/// The long-token mode a value names.
pub open spec fn long_tokens_result(v: Seq<char>) -> Result<LongTokenMode, Seq<char>> {
    if v == "truncate"@ {
        Ok(LongTokenMode::Truncate)
    } else if v == "discard"@ {
        Ok(LongTokenMode::Discard)
    } else if v == "split"@ {
        Ok(LongTokenMode::Split)
    } else {
        Err(invalid_message("long_tokens"@, v, "truncate, discard, or split"@))
    }
}

/// The grapheme mode a value names.
pub open spec fn graphemes_result(v: Seq<char>) -> Result<GraphemeMode, Seq<char>> {
    if v == "discard"@ {
        Ok(GraphemeMode::Discard)
    } else if v == "emoji"@ {
        Ok(GraphemeMode::Emoji)
    } else if v == "retain"@ {
        Ok(GraphemeMode::Retain)
    } else {
        Err(invalid_message("graphemes"@, v, "discard, emoji, or retain"@))
    }
}

/// The position-gap mode a value names.
pub open spec fn position_gaps_result(v: Seq<char>) -> Result<PositionGapMode, Seq<char>> {
    if v == "collapse"@ {
        Ok(PositionGapMode::Collapse)
    } else if v == "preserve"@ {
        Ok(PositionGapMode::Preserve)
    } else {
        Err(invalid_message("position_gaps"@, v, "collapse or preserve"@))
    }
}

// ---------------------------------------------------------------- what the words mean

/// The word that names each base tokenizer.
pub open spec fn tokenizer_word(t: TokenizerSpec) -> Seq<char> {
    match t {
        TokenizerSpec::Unicode => "unicode"@,
        TokenizerSpec::Whitespace => "whitespace"@,
    }
}

/// The word that names each folding setting.
pub open spec fn folding_word(f: Folding) -> Seq<char> {
    match f {
        Folding::Preserve => "preserve"@,
        Folding::Fold => "fold"@,
    }
}

/// The word that names each long-token mode.
pub open spec fn long_tokens_word(m: LongTokenMode) -> Seq<char> {
    match m {
        LongTokenMode::Truncate => "truncate"@,
        LongTokenMode::Discard => "discard"@,
        LongTokenMode::Split => "split"@,
    }
}

/// The word that names each grapheme mode.
pub open spec fn grapheme_mode_word(m: GraphemeMode) -> Seq<char> {
    match m {
        GraphemeMode::Discard => "discard"@,
        GraphemeMode::Emoji => "emoji"@,
        GraphemeMode::Retain => "retain"@,
    }
}

/// The word that names each position-gap mode.
pub open spec fn position_gaps_word(m: PositionGapMode) -> Seq<char> {
    match m {
        PositionGapMode::Collapse => "collapse"@,
        PositionGapMode::Preserve => "preserve"@,
    }
}

/// A tokenizer value is accepted exactly when it is the name of a
/// tokenizer, and it then selects that tokenizer: no two names select the
/// same one, and every tokenizer has a name.
pub proof fn lemma_tokenizer_words(v: Seq<char>, t: TokenizerSpec)
    ensures
        tokenizer_result(v) == Ok::<TokenizerSpec, Seq<char>>(t) <==> v == tokenizer_word(t),
{
    reveal_strlit("unicode");
    assert("unicode"@.len() == 7);
    reveal_strlit("whitespace");
    assert("whitespace"@.len() == 10);
}

/// A folding value is accepted exactly when it names a setting, and it then
/// selects that setting, whichever option it is given for.
pub proof fn lemma_folding_words(option: Seq<char>, v: Seq<char>, f: Folding)
    ensures
        folding_result(option, v) == Ok::<Folding, Seq<char>>(f) <==> v == folding_word(f),
{
    reveal_strlit("preserve");
    assert("preserve"@.len() == 8);
    reveal_strlit("fold");
    assert("fold"@.len() == 4);
}

/// A long-token value is accepted exactly when it names a mode, and it then
/// selects that mode.
pub proof fn lemma_long_tokens_words(v: Seq<char>, m: LongTokenMode)
    ensures
        long_tokens_result(v) == Ok::<LongTokenMode, Seq<char>>(m) <==> v == long_tokens_word(m),
{
    reveal_strlit("truncate");
    assert("truncate"@.len() == 8);
    reveal_strlit("discard");
    assert("discard"@.len() == 7);
    reveal_strlit("split");
    assert("split"@.len() == 5);
}

/// A graphemes value is accepted exactly when it names a mode, and it then
/// selects that mode.
pub proof fn lemma_graphemes_words(v: Seq<char>, m: GraphemeMode)
    ensures
        graphemes_result(v) == Ok::<GraphemeMode, Seq<char>>(m) <==> v == grapheme_mode_word(m),
{
    reveal_strlit("discard");
    assert("discard"@.len() == 7);
    reveal_strlit("emoji");
    assert("emoji"@.len() == 5);
    reveal_strlit("retain");
    assert("retain"@.len() == 6);
}

/// A position-gaps value is accepted exactly when it names a mode, and it
/// then selects that mode.
pub proof fn lemma_position_gaps_words(v: Seq<char>, m: PositionGapMode)
    ensures
        position_gaps_result(v) == Ok::<PositionGapMode, Seq<char>>(m) <==> v == position_gaps_word(m),
{
    reveal_strlit("collapse");
    assert("collapse"@.len() == 8 && "collapse"@[0] == 'c');
    reveal_strlit("preserve");
    assert("preserve"@.len() == 8 && "preserve"@[0] == 'p');
}

/// What the graphemes values do to a cluster outside words: `discard`
/// keeps none, `emoji` keeps exactly the emoji, as emoji, and `retain`
/// keeps the emoji and also the clusters of symbols.
pub proof fn lemma_graphemes_values_keep(v: Seq<char>, g: Seq<char>)
    requires
        graphemes_result(v) is Ok,
    ensures
        v == "discard"@ ==> cluster_class(graphemes_result(v)->Ok_0, g) is None,
        v == "emoji"@ ==> cluster_class(graphemes_result(v)->Ok_0, g)
            == if emoji_known(g) { Some(Classification::Emoji) } else { None },
        v == "retain"@ ==> (emoji_known(g) ==> cluster_class(graphemes_result(v)->Ok_0, g) == Some(Classification::Emoji)),
        v == "retain"@ ==> (!emoji_known(g) && (scan_cluster(g, 0, false, false) matches Some((true, _)))
            ==> cluster_class(graphemes_result(v)->Ok_0, g) == Some(Classification::Symbol)),
{
    reveal_strlit("discard");
    assert("discard"@.len() == 7);
    reveal_strlit("emoji");
    assert("emoji"@.len() == 5);
    reveal_strlit("retain");
    assert("retain"@.len() == 6);
}

/// The tokenizer named by `value`.
pub fn parse_tokenizer(value: &str) -> (r: Result<TokenizerSpec, String>)
    ensures
        r matches Ok(t) ==> tokenizer_result(value@) == Ok::<TokenizerSpec, Seq<char>>(t),
        r matches Err(m) ==> tokenizer_result(value@) == Err::<TokenizerSpec, Seq<char>>(m@),
{
    if str_equals(value, "unicode") {
        Ok(TokenizerSpec::Unicode)
    } else if str_equals(value, "whitespace") {
        Ok(TokenizerSpec::Whitespace)
    } else {
        Err(invalid_value("tokenizer", value, "unicode or whitespace"))
    }
}

/// The folding named by `value`, for the option called `option`.
pub fn parse_folding(option: &str, value: &str) -> (r: Result<Folding, String>)
    ensures
        r matches Ok(f) ==> folding_result(option@, value@) == Ok::<Folding, Seq<char>>(f),
        r matches Err(m) ==> folding_result(option@, value@) == Err::<Folding, Seq<char>>(m@),
{
    if str_equals(value, "preserve") {
        Ok(Folding::Preserve)
    } else if str_equals(value, "fold") {
        Ok(Folding::Fold)
    } else {
        Err(invalid_value(option, value, "preserve or fold"))
    }
}

/// The long-token mode named by `value`.
pub fn parse_long_tokens(value: &str) -> (r: Result<LongTokenMode, String>)
    ensures
        r matches Ok(t) ==> long_tokens_result(value@) == Ok::<LongTokenMode, Seq<char>>(t),
        r matches Err(m) ==> long_tokens_result(value@) == Err::<LongTokenMode, Seq<char>>(m@),
{
    if str_equals(value, "truncate") {
        Ok(LongTokenMode::Truncate)
    } else if str_equals(value, "discard") {
        Ok(LongTokenMode::Discard)
    } else if str_equals(value, "split") {
        Ok(LongTokenMode::Split)
    } else {
        Err(invalid_value("long_tokens", value, "truncate, discard, or split"))
    }
}

/// The grapheme mode named by `value`.
pub fn parse_graphemes(value: &str) -> (r: Result<GraphemeMode, String>)
    ensures
        r matches Ok(t) ==> graphemes_result(value@) == Ok::<GraphemeMode, Seq<char>>(t),
        r matches Err(m) ==> graphemes_result(value@) == Err::<GraphemeMode, Seq<char>>(m@),
{
    if str_equals(value, "discard") {
        Ok(GraphemeMode::Discard)
    } else if str_equals(value, "emoji") {
        Ok(GraphemeMode::Emoji)
    } else if str_equals(value, "retain") {
        Ok(GraphemeMode::Retain)
    } else {
        Err(invalid_value("graphemes", value, "discard, emoji, or retain"))
    }
}

/// The position-gap mode named by `value`.
pub fn parse_position_gaps(value: &str) -> (r: Result<PositionGapMode, String>)
    ensures
        r matches Ok(t) ==> position_gaps_result(value@) == Ok::<PositionGapMode, Seq<char>>(t),
        r matches Err(m) ==> position_gaps_result(value@) == Err::<PositionGapMode, Seq<char>>(m@),
{
    if str_equals(value, "collapse") {
        Ok(PositionGapMode::Collapse)
    } else if str_equals(value, "preserve") {
        Ok(PositionGapMode::Preserve)
    } else {
        Err(invalid_value("position_gaps", value, "collapse or preserve"))
    }
}

/// The tokenization options of the SQL functions, as given.
#[derive(Debug, Clone, Copy)]
pub struct TokenizeOptions<'a> {
    pub tokenizer: &'a str,
    pub case_folding: &'a str,
    pub accent_folding: &'a str,
    pub long_tokens: &'a str,
    pub max_token_bytes: i32,
    pub graphemes: &'a str,
    pub position_gaps: &'a str,
}

/// The byte ceiling is within the range the SQL functions accept.
pub open spec fn max_bytes_ok(n: i32) -> bool {
    MIN_TOKEN_BYTES <= n <= MAX_TOKEN_BYTES
}

/// The message for a byte ceiling out of range.
pub open spec fn max_bytes_message() -> Seq<char> {
    "max_token_bytes must be between 4 and 2692"@
}

/// What checking `o` gives: the first error in the order the options are
/// listed, the byte ceiling first, or the specification they name.
pub open spec fn options_result(o: TokenizeOptions) -> Result<TokenizerPipelineSpec, Seq<char>> {
    if !max_bytes_ok(o.max_token_bytes) {
        Err(max_bytes_message())
    } else if tokenizer_result(o.tokenizer@) is Err {
        Err(tokenizer_result(o.tokenizer@)->Err_0)
    } else if folding_result("case_folding"@, o.case_folding@) is Err {
        Err(folding_result("case_folding"@, o.case_folding@)->Err_0)
    } else if folding_result("accent_folding"@, o.accent_folding@) is Err {
        Err(folding_result("accent_folding"@, o.accent_folding@)->Err_0)
    } else if long_tokens_result(o.long_tokens@) is Err {
        Err(long_tokens_result(o.long_tokens@)->Err_0)
    } else if graphemes_result(o.graphemes@) is Err {
        Err(graphemes_result(o.graphemes@)->Err_0)
    } else if position_gaps_result(o.position_gaps@) is Err {
        Err(position_gaps_result(o.position_gaps@)->Err_0)
    } else {
        Ok(TokenizerPipelineSpec {
            tokenizer: tokenizer_result(o.tokenizer@)->Ok_0,
            case_folding: folding_result("case_folding"@, o.case_folding@)->Ok_0,
            accent_folding: folding_result("accent_folding"@, o.accent_folding@)->Ok_0,
            long_tokens: LongTokenSpec {
                mode: long_tokens_result(o.long_tokens@)->Ok_0,
                max_bytes: o.max_token_bytes as usize,
            },
            graphemes: graphemes_result(o.graphemes@)->Ok_0,
            position_gaps: position_gaps_result(o.position_gaps@)->Ok_0,
        })
    }
}

impl<'a> TokenizeOptions<'a> {
    /// Check every option and build the pipeline specification they name.
    pub fn into_spec(self) -> (r: Result<TokenizerPipelineSpec, String>)
        ensures
            r matches Ok(s) ==> options_result(self) == Ok::<TokenizerPipelineSpec, Seq<char>>(s),
            r matches Err(m) ==> options_result(self) == Err::<TokenizerPipelineSpec, Seq<char>>(m@),
    {
        if self.max_token_bytes < MIN_TOKEN_BYTES as i32 || self.max_token_bytes > MAX_TOKEN_BYTES as i32 {
            return Err(String::from_str("max_token_bytes must be between 4 and 2692"));
        }
        let max_bytes = self.max_token_bytes as usize;
        let tokenizer = match parse_tokenizer(self.tokenizer) {
            Ok(t) => t,
            Err(e) => return Err(e),
        };
        let case_folding = match parse_folding("case_folding", self.case_folding) {
            Ok(t) => t,
            Err(e) => return Err(e),
        };
        let accent_folding = match parse_folding("accent_folding", self.accent_folding) {
            Ok(t) => t,
            Err(e) => return Err(e),
        };
        let mode = match parse_long_tokens(self.long_tokens) {
            Ok(t) => t,
            Err(e) => return Err(e),
        };
        let graphemes = match parse_graphemes(self.graphemes) {
            Ok(t) => t,
            Err(e) => return Err(e),
        };
        let position_gaps = match parse_position_gaps(self.position_gaps) {
            Ok(t) => t,
            Err(e) => return Err(e),
        };
        Ok(TokenizerPipelineSpec {
            tokenizer,
            case_folding,
            accent_folding,
            long_tokens: LongTokenSpec { mode, max_bytes },
            graphemes,
            position_gaps,
        })
    }
}

/// The texts of the tokens the pipeline of `spec` makes of `text`.
pub open spec fn pipeline_texts(text: Seq<char>, spec: TokenizerPipelineSpec) -> Seq<Seq<char>> {
    pipeline_tokens(text, spec).map_values(|m: (Seq<char>, u32, crate::token::Classification, bool)| m.0)
}

/// The texts of the tokens the pipeline of a valid specification makes of
/// `text`: none empty, none longer than the byte ceiling.
pub fn collect_tokens(text: &str, spec: TokenizerPipelineSpec) -> (r: Vec<String>)
    requires
        spec_valid(spec),
    ensures
        forall|k: int| 0 <= k < r@.len() ==> (#[trigger] r@[k])@.len() > 0
            && bytes_of(r@[k]@, 0, r@[k]@.len() as int) <= spec.long_tokens.max_bytes,
        r@.map_values(|s: String| s@) == pipeline_texts(text@, spec),
{
    let pipeline = crate::pipeline::CompiledTokenizerPipeline::from_validated_spec(spec);
    let tokens = pipeline.tokenize(text);
    let mut out: Vec<String> = Vec::new();
    let mut i: usize = 0;
    while i < tokens.len()
        invariant
            i <= tokens@.len(),
            forall|k: int| 0 <= k < tokens@.len() ==> (#[trigger] tokens@[k]).text@.len() > 0
                && bytes_of(tokens@[k].text@, 0, tokens@[k].text@.len() as int) <= spec.long_tokens.max_bytes,
            out@.len() == i,
            forall|k: int| 0 <= k < i ==> (#[trigger] out@[k])@ == tokens@[k].text@,
        decreases tokens@.len() - i,
    {
        out.push(tokens[i].text.clone());
        i += 1;
    }
    proof {
        assert(tokens@.len() == pipeline_tokens(text@, spec).len()) by {
            assert(crate::long_tokens::token_models(tokens@).len() == tokens@.len());
        }
        assert forall|k: int| 0 <= k < out@.len() implies out@.map_values(|s: String| s@)[k] == pipeline_texts(text@, spec)[k] by {
            assert(crate::long_tokens::token_models(tokens@)[k] == pipeline_tokens(text@, spec)[k]);
        }
        assert(out@.map_values(|s: String| s@) =~= pipeline_texts(text@, spec));
    }
    out
}

/// Check the options and compile the pipeline they name; the error is the
/// message the SQL functions raise.
pub fn compile_options(options: TokenizeOptions) -> (r: Result<crate::pipeline::CompiledTokenizerPipeline, String>)
    ensures
        options_result(options) matches Err(m) ==> r matches Err(e) && e@ == m,
        options_result(options) matches Ok(spec) ==> r matches Ok(p) && p.wf() && p.spec_of() == spec,
{
    let spec = match options.into_spec() {
        Ok(spec) => spec,
        Err(e) => return Err(e),
    };
    match spec.compile() {
        Ok(p) => Ok(p),
        Err(e) => Err(e.message()),
    }
}

/// The token texts of `text` under the given options, in order; no text
/// gives no tokens. Invalid options give the message the SQL function raises.
pub fn tokenize(text: Option<&str>, options: TokenizeOptions) -> (r: Result<Vec<String>, String>)
    ensures
        options_result(options) matches Err(m) ==> r matches Err(e) && e@ == m,
        options_result(options) is Ok ==> r is Ok,
        text is None ==> (r matches Ok(v) ==> v@.len() == 0),
        r matches Ok(v) ==> options_result(options) matches Ok(spec)
            && (forall|k: int| 0 <= k < v@.len() ==> (#[trigger] v@[k])@.len() > 0
                && bytes_of(v@[k]@, 0, v@[k]@.len() as int) <= spec.long_tokens.max_bytes)
            && (text matches Some(t) ==> v@.map_values(|s: String| s@) == pipeline_texts(t@, spec)),
{
    let pipeline = match compile_options(options) {
        Ok(p) => p,
        Err(e) => return Err(e),
    };
    match text {
        None => Ok(Vec::new()),
        Some(t) => {
            let spec = pipeline.spec();
            Ok(collect_tokens(t, spec))
        },
    }
}

} // verus!
