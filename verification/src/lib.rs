//! Positional full-text search primitives: minimal-interval span queries,
//! query-language runtime filters, and the tokenizer pipeline.
pub mod interval;
pub mod query;
pub mod text;
pub mod render;
pub mod tf_bucket;
pub mod position_filter;
pub mod span_expr;
pub mod positions;
pub mod eval;
pub mod solver;
pub mod token;
pub mod spec;
pub mod whitespace;
pub mod options;
pub mod term_edit;
pub mod folder;
pub mod unicode;
pub mod long_tokens;
pub mod pipeline;
pub mod query_lang;
pub mod match_positions;
pub mod regex;
pub mod stop_words;
pub mod scoring;
