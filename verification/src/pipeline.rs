//! A validated tokenization pipeline: base tokenizer, folding, long-token
//! handling and positions.
use vstd::prelude::*;
use crate::spec::{
    GraphemeMode, TokenizerPipelineSpec, TokenizerPipelineSpecError, TokenizerSpec, spec_valid,
    spec_tin_default,
};
use crate::token::{Classification, Token, take_token};
use crate::folder::{CompiledFolder, folded};
use crate::long_tokens::{LongTokenIter, bytes_of, long_token_output, token_model, token_models};
use crate::unicode::{UnicodeIter, unicode_tokens};
use crate::whitespace::{WhitespaceIter, ws_words};

verus! {

/// The texts and kinds of the base tokenizer's tokens of `text`.
pub open spec fn base_words(text: Seq<char>, spec: TokenizerPipelineSpec) -> Seq<(Seq<char>, Classification)> {
    match spec.tokenizer {
        TokenizerSpec::Unicode => unicode_tokens(text, spec.graphemes),
        TokenizerSpec::Whitespace => ws_words(text, 0).map_values(|w: Seq<char>| (w, Classification::Unknown)),
    }
}

/// The base tokens numbered from zero; numbering stops before `u32::MAX`.
pub open spec fn numbered(b: Seq<(Seq<char>, Classification)>) -> Seq<(Seq<char>, u32, Classification, bool)> {
    let n: nat = if b.len() < u32::MAX { b.len() } else { u32::MAX as nat };
    Seq::new(n, |i: int| (b[i].0, i as u32, b[i].1, false))
}

/// The tokens folded, without those that fold to nothing.
pub open spec fn fold_keep(ms: Seq<(Seq<char>, u32, Classification, bool)>, f: CompiledFolder)
    -> Seq<(Seq<char>, u32, Classification, bool)>
    decreases ms.len(),
{
    if ms.len() == 0 {
        Seq::empty()
    } else {
        let rest = fold_keep(ms.drop_last(), f);
        let t = ms.last();
        let ft = folded(f, t.0);
        if ft.len() > 0 { rest.push((ft, t.1, t.2, t.3)) } else { rest }
    }
}

/// Folding keeps only tokens with non-empty texts.
proof fn lemma_fold_keep_nonempty(ms: Seq<(Seq<char>, u32, Classification, bool)>, f: CompiledFolder)
    ensures
        crate::long_tokens::texts_nonempty(fold_keep(ms, f)),
    decreases ms.len(),
{
    if ms.len() > 0 {
        lemma_fold_keep_nonempty(ms.drop_last(), f);
    }
}

/// The tokens the pipeline of `spec` makes of `text`: base tokens numbered
/// from zero, folded, without those that fold to nothing, then the
/// long-token rule and the position mode.
pub open spec fn pipeline_tokens(text: Seq<char>, spec: TokenizerPipelineSpec) -> Seq<(Seq<char>, u32, Classification, bool)> {
    long_token_output(fold_keep(numbered(base_words(text, spec)), CompiledFolder::new_spec(spec)),
        spec.long_tokens, spec.position_gaps)
}

/// The texts and kinds of a list of tokens.
pub open spec fn token_words(v: Seq<Token>) -> Seq<(Seq<char>, Classification)> {
    v.map_values(|t: Token| (t.text@, t.classification))
}

/// A pipeline compiled from a valid specification.
pub struct CompiledTokenizerPipeline {
    spec: TokenizerPipelineSpec,
    folder: CompiledFolder,
}

impl CompiledTokenizerPipeline {
    /// The pipeline's internal invariant.
    pub closed spec fn wf(&self) -> bool {
        spec_valid(self.spec)
            && self.folder == CompiledFolder::new_spec(self.spec)
    }

    /// The specification the pipeline was compiled from.
    pub closed spec fn spec_of(&self) -> TokenizerPipelineSpec {
        self.spec
    }

    /// Compile a specification already known to be valid.
    pub fn from_validated_spec(spec: TokenizerPipelineSpec) -> (r: Self)
        requires
            spec_valid(spec),
        ensures
            r.wf(),
            r.spec_of() == spec,
    {
        CompiledTokenizerPipeline { spec, folder: CompiledFolder::new(spec.case_folding, spec.accent_folding) }
    }

    /// The specification the pipeline was compiled from.
    pub fn spec(&self) -> (r: TokenizerPipelineSpec)
        ensures
            r == self.spec_of(),
    {
        self.spec
    }

    /// The base tokens of `text`, numbered from zero.
    fn base_tokens(&self, text: &str) -> (r: Vec<Token>)
        ensures
            token_models(r@) == numbered(base_words(text@, self.spec)),
    {
        let mut out: Vec<Token> = Vec::new();
        let ghost base = base_words(text@, self.spec);
        match self.spec.tokenizer {
            TokenizerSpec::Unicode => {
                let mut iter = UnicodeIter::new(text, self.spec.graphemes);
                while iter.positions_consumed() < u32::MAX
                    invariant
                        iter.wf(),
                        base == unicode_tokens(text@, self.spec.graphemes),
                        base == token_words(out@) + iter.remaining(),
                        iter.next_pos() == out@.len(),
                        forall|k: int| 0 <= k < out@.len() ==> (#[trigger] out@[k]).pos == k && !out@[k].came_from_split,
                    ensures
                        iter.remaining().len() == 0 || out@.len() == u32::MAX,
                    decreases u32::MAX - iter.next_pos(),
                {
                    let ghost before = out@;
                    match iter.next() {
                        Some(t) => {
                            out.push(t);
                            proof {
                                assert(token_words(out@) == token_words(before) + seq![(t.text@, t.classification)]);
                            }
                        },
                        None => {
                            proof {
                                assert(base == token_words(out@));
                            }
                            break;
                        },
                    }
                }
                proof {
                    assert forall|k: int| 0 <= k < out@.len() implies token_words(out@)[k] == base[k] by {}
                    assert(numbered(base).len() == out@.len());
                    assert forall|k: int| 0 <= k < out@.len() implies token_models(out@)[k] == numbered(base)[k] by {
                        assert(token_words(out@)[k] == base[k]);
                    }
                    assert(token_models(out@) =~= numbered(base));
                }
            },
            TokenizerSpec::Whitespace => {
                let mut iter = WhitespaceIter::new(text);
                let ghost words = ws_words(text@, 0);
                while iter.positions_consumed() < u32::MAX
                    invariant
                        iter.consumed() <= iter.text().len(),
                        words == ws_words(text@, 0),
                        base == words.map_values(|w: Seq<char>| (w, Classification::Unknown)),
                        words == out@.map_values(|t: Token| t.text@) + iter.remaining(),
                        iter.next_pos() == out@.len(),
                        forall|k: int| 0 <= k < out@.len() ==> (#[trigger] out@[k]).pos == k && !out@[k].came_from_split
                            && out@[k].classification == Classification::Unknown,
                    ensures
                        iter.remaining().len() == 0 || out@.len() == u32::MAX,
                    decreases u32::MAX - iter.next_pos(),
                {
                    let ghost before = out@;
                    match iter.next() {
                        Some(t) => {
                            out.push(t);
                            proof {
                                assert(out@.map_values(|t: Token| t.text@) == before.map_values(|t: Token| t.text@) + seq![t.text@]);
                            }
                        },
                        None => {
                            break;
                        },
                    }
                }
                proof {
                    assert forall|k: int| 0 <= k < out@.len() implies out@.map_values(|t: Token| t.text@)[k] == words[k] by {}
                    assert(numbered(base).len() == out@.len());
                    assert forall|k: int| 0 <= k < out@.len() implies token_models(out@)[k] == numbered(base)[k] by {
                        assert(out@.map_values(|t: Token| t.text@)[k] == words[k]);
                    }
                    assert(token_models(out@) =~= numbered(base));
                }
            },
        }
        out
    }

    /// The tokens of `text`: base tokens, folded, without those that fold
    /// to nothing, then the long-token rule and the position mode. No token
    /// is empty or longer than the byte ceiling.
    pub fn tokenize(&self, text: &str) -> (r: Vec<Token>)
        requires
            self.wf(),
        ensures
            forall|k: int| 0 <= k < r@.len() ==> (#[trigger] r@[k]).text@.len() > 0
                && bytes_of(r@[k].text@, 0, r@[k].text@.len() as int) <= self.spec_of().long_tokens.max_bytes,
            token_models(r@) == pipeline_tokens(text@, self.spec_of()),
    {
        let mut base = self.base_tokens(text);
        let ghost bm = token_models(base@);
        let n = base.len();
        let mut kept: Vec<Token> = Vec::new();
        let mut i: usize = 0;
        while i < n
            invariant
                n == base@.len(),
                n == bm.len(),
                i <= n,
                forall|k: int| 0 <= k < kept@.len() ==> (#[trigger] kept@[k]).text@.len() > 0,
                forall|k: int| i <= k < n ==> token_model(#[trigger] base@[k]) == bm[k],
                token_models(kept@) == fold_keep(bm.take(i as int), self.folder),
            decreases n - i,
        {
            let ghost before = kept@;
            let mut t = take_token(&mut base, i);
            self.folder.apply(&mut t);
            proof {
                assert(bm.take(i + 1).drop_last() == bm.take(i as int));
                assert(bm.take(i + 1).last() == bm[i as int]);
            }
            if t.text.as_str().unicode_len() > 0 {
                kept.push(t);
                proof {
                    assert(token_models(kept@) == token_models(before).push(token_model(t)));
                }
            }
            i += 1;
        }
        proof {
            assert(bm.take(n as int) == bm);
        }
        let mut iter = LongTokenIter::new(kept, self.spec.long_tokens, self.spec.position_gaps);
        let mut out: Vec<Token> = Vec::new();
        let ghost whole = pipeline_tokens(text@, self.spec);
        proof {
            lemma_fold_keep_nonempty(numbered(base_words(text@, self.spec)), CompiledFolder::new_spec(self.spec));
            crate::long_tokens::lemma_long_token_output_nonempty(
                fold_keep(numbered(base_words(text@, self.spec)), CompiledFolder::new_spec(self.spec)),
                self.spec.long_tokens, self.spec.position_gaps);
        }
        loop
            invariant
                crate::long_tokens::texts_nonempty(whole),
                iter.wf(),
                iter.max_bytes() == self.spec.long_tokens.max_bytes,
                whole == pipeline_tokens(text@, self.spec),
                whole == token_models(out@) + iter.remaining(),
                forall|k: int| 0 <= k < out@.len() ==> (#[trigger] out@[k]).text@.len() > 0
                    && bytes_of(out@[k].text@, 0, out@[k].text@.len() as int) <= self.spec.long_tokens.max_bytes,
            decreases iter.inner_left(), iter.pending_left(),
        {
            let ghost before = out@;
            match iter.next() {
                Some(t) => {
                    out.push(t);
                    proof {
                        assert(token_models(out@) == token_models(before).push(token_model(t)));
                        assert(whole[before.len() as int] == token_model(t));
                    }
                },
                None => return out,
            }
        }
    }
}

impl CompiledFolder {
    /// The folder a specification asks for.
    pub open spec fn new_spec(spec: TokenizerPipelineSpec) -> CompiledFolder {
        match (spec.case_folding, spec.accent_folding) {
            (crate::spec::Folding::Preserve, crate::spec::Folding::Preserve) => CompiledFolder::Preserve,
            (crate::spec::Folding::Fold, crate::spec::Folding::Preserve) => CompiledFolder::Case,
            (crate::spec::Folding::Preserve, crate::spec::Folding::Fold) => CompiledFolder::Accent,
            (crate::spec::Folding::Fold, crate::spec::Folding::Fold) => CompiledFolder::CaseAndAccent,
        }
    }
}

impl TokenizerPipelineSpec {
    /// Validate the specification and compile it.
    pub fn compile(self) -> (r: Result<CompiledTokenizerPipeline, TokenizerPipelineSpecError>)
        ensures
            r is Ok <==> spec_valid(self),
            r matches Ok(p) ==> p.wf() && p.spec_of() == self,
            r is Err ==> r == Err::<CompiledTokenizerPipeline, TokenizerPipelineSpecError>(TokenizerPipelineSpecError::MaxTokenBytesTooSmall),
    {
        match self.validate() {
            Err(e) => Err(e),
            Ok(()) => Ok(CompiledTokenizerPipeline::from_validated_spec(self)),
        }
    }
}

/// The default pipeline specification.
pub fn default_pipeline_spec() -> (r: TokenizerPipelineSpec)
    ensures
        r == spec_tin_default(),
{
    TokenizerPipelineSpec::tin_default()
}

/// The default pipeline, compiled.
pub fn default_pipeline() -> (r: CompiledTokenizerPipeline)
    ensures
        r.wf(),
        r.spec_of() == spec_tin_default(),
{
    CompiledTokenizerPipeline::from_validated_spec(default_pipeline_spec())
}

} // verus!
