//! The options of a tokenization pipeline.
use vstd::prelude::*;

verus! {

/// Smallest byte ceiling that can contain every UTF-8 scalar value.
pub const MIN_TOKEN_BYTES: usize = 4;

/// Which base tokenizer splits the text.
#[derive(Debug, Clone, Copy, PartialEq, Eq, Structural)]
pub enum TokenizerSpec {
    Unicode,
    Whitespace,
}

/// Whether a folding step applies.
#[derive(Debug, Clone, Copy, PartialEq, Eq, Structural)]
pub enum Folding {
    Preserve,
    Fold,
}

/// What happens to a token longer than the byte ceiling.
#[derive(Debug, Clone, Copy, PartialEq, Eq, Structural)]
pub enum LongTokenMode {
    Truncate,
    Discard,
    Split,
}

/// How long tokens are handled, and the byte ceiling.
#[derive(Debug, Clone, Copy, PartialEq, Eq, Structural)]
pub struct LongTokenSpec {
    pub mode: LongTokenMode,
    pub max_bytes: usize,
}

/// Which grapheme clusters outside words become tokens.
#[derive(Debug, Clone, Copy, PartialEq, Eq, Structural)]
pub enum GraphemeMode {
    Discard,
    Emoji,
    Retain,
}

/// Whether positions keep the gaps left by dropped tokens.
#[derive(Debug, Clone, Copy, PartialEq, Eq, Structural)]
pub enum PositionGapMode {
    Collapse,
    Preserve,
}

/// Why a pipeline specification is refused.
#[derive(Debug, Clone, Copy, PartialEq, Eq, Structural)]
pub enum TokenizerPipelineSpecError {
    /// The byte ceiling cannot hold every UTF-8 scalar value.
    MaxTokenBytesTooSmall,
}

/// The full set of tokenization options.
#[derive(Debug, Clone, Copy, PartialEq, Eq, Structural)]
pub struct TokenizerPipelineSpec {
    pub tokenizer: TokenizerSpec,
    pub case_folding: Folding,
    pub accent_folding: Folding,
    pub long_tokens: LongTokenSpec,
    pub graphemes: GraphemeMode,
    pub position_gaps: PositionGapMode,
}

/// The default pipeline: Unicode words, case and accent folding, long
/// tokens split at 256 bytes, emoji kept, position gaps preserved.
pub open spec fn spec_tin_default() -> TokenizerPipelineSpec {
    TokenizerPipelineSpec {
        tokenizer: TokenizerSpec::Unicode,
        case_folding: Folding::Fold,
        accent_folding: Folding::Fold,
        long_tokens: LongTokenSpec { mode: LongTokenMode::Split, max_bytes: 256 },
        graphemes: GraphemeMode::Emoji,
        position_gaps: PositionGapMode::Preserve,
    }
}

/// The pipeline used before tokenization options existed: case folding
/// only, long tokens truncated at 256 bytes, graphemes discarded, position
/// gaps collapsed.
pub open spec fn spec_legacy_tin_default() -> TokenizerPipelineSpec {
    TokenizerPipelineSpec {
        tokenizer: TokenizerSpec::Unicode,
        case_folding: Folding::Fold,
        accent_folding: Folding::Preserve,
        long_tokens: LongTokenSpec { mode: LongTokenMode::Truncate, max_bytes: 256 },
        graphemes: GraphemeMode::Discard,
        position_gaps: PositionGapMode::Collapse,
    }
}

/// A specification is accepted when its byte ceiling holds any scalar value.
pub open spec fn spec_valid(s: TokenizerPipelineSpec) -> bool {
    s.long_tokens.max_bytes >= MIN_TOKEN_BYTES
}

impl TokenizerPipelineSpecError {
    /// The error's message.
    pub fn message(&self) -> (r: String)
        ensures
            r@ == "max_token_bytes must be at least 4"@,
    {
        String::from_str("max_token_bytes must be at least 4")
    }
}

/// The default specification is the default pipeline.
impl Default for TokenizerPipelineSpec {
    fn default() -> (r: Self)
        ensures
            r == spec_tin_default(),
    {
        Self::tin_default()
    }
}

impl TokenizerPipelineSpec {
    /// The default pipeline.
    pub fn tin_default() -> (r: Self)
        ensures
            r == spec_tin_default(),
    {
        TokenizerPipelineSpec {
            tokenizer: TokenizerSpec::Unicode,
            case_folding: Folding::Fold,
            accent_folding: Folding::Fold,
            long_tokens: LongTokenSpec { mode: LongTokenMode::Split, max_bytes: 256 },
            graphemes: GraphemeMode::Emoji,
            position_gaps: PositionGapMode::Preserve,
        }
    }

    /// The pipeline tin used before tokenization options existed.
    pub fn legacy_tin_default() -> (r: Self)
        ensures
            r == spec_legacy_tin_default(),
    {
        TokenizerPipelineSpec {
            tokenizer: TokenizerSpec::Unicode,
            case_folding: Folding::Fold,
            accent_folding: Folding::Preserve,
            long_tokens: LongTokenSpec { mode: LongTokenMode::Truncate, max_bytes: 256 },
            graphemes: GraphemeMode::Discard,
            position_gaps: PositionGapMode::Collapse,
        }
    }

    /// Check the byte ceiling.
    pub fn validate(self) -> (r: Result<(), TokenizerPipelineSpecError>)
        ensures
            r is Ok <==> spec_valid(self),
            r is Err ==> r == Err::<(), TokenizerPipelineSpecError>(TokenizerPipelineSpecError::MaxTokenBytesTooSmall),
    {
        if self.long_tokens.max_bytes < MIN_TOKEN_BYTES {
            return Err(TokenizerPipelineSpecError::MaxTokenBytesTooSmall);
        }
        Ok(())
    }
}

/// The default specification is accepted.
pub proof fn lemma_defaults_valid()
    ensures
        spec_valid(spec_tin_default()),
        spec_valid(spec_legacy_tin_default()),
{
}

} // verus!
