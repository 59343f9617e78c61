# tin

Positional full-text search primitives, written in Verus and proved against
their contracts.

- `interval`, `query`, `render`, `positions`, `eval`, `solver`: span queries
  evaluated under minimal-interval semantics. A `SpanSolver` is validated and
  compiled once, then run over the sorted position lists of one document after
  another. Its results are proved sorted, and for strictly increasing position
  lists strictly increasing in both ends, so no result contains another.
  Compilation is proved to build a node for each operator of the query with
  its parameters, and a term or exact-phrase query is proved to yield exactly
  its occurrences; a filter's, a relation's and an ordered window's results
  are each proved to meet the operator's condition against the state they
  were produced from. A filter and a relation keep, in order, exactly the
  intervals of their source that pass their test, and a disjunction produces
  only intervals its children returned, every other one of which contains a
  produced interval.
- `span_expr`, `position_filter`, `query_lang`, `regex`, `match_positions`:
  the runtime side of the query language: window filters resolved against a
  document length, the fast-path check, wildcard and phrase-term handling, and
  regular-expression terms compiled through `regex-syntax` and `regex-automata`.
- `token`, `spec`, `whitespace`, `unicode`, `folder`, `long_tokens`,
  `pipeline`, `options`: the tokenizer pipeline. Word and grapheme boundaries,
  normalization and Unicode properties come from the `unicode-*` and `emojis`
  crates through small trusted wrappers; everything built on them (token
  classes, folding decisions, long-token truncation and splitting, positions)
  is verified against a model of the whole pipeline.
- `tf_bucket`, `stop_words`, `term_edit`, `scoring`: the integer and set logic
  of BM25 scoring: term-frequency buckets, stop words, term-set edits and the
  plan of which terms a score sums over.

`app/` holds what the library does not: the floating-point BM25 arithmetic and
error types with `thiserror` derives.
