# tantivy_analysis_contrib

Token filters and tokenizers for the tantivy search engine, verified with
Verus.

- `src/` is the verified library. `token` models tokens and token streams;
  `commons` holds the edge n-gram, elision, length, limit, path, reverse,
  stop word and trim components; `icu` holds the logic of the ICU based
  normalizer, transform and word tokenizer, which take the results of the
  ICU calls as arguments.
- `app/` implements the `tantivy_tokenizer_api` traits over the library and
  makes the ICU calls.
- `tests/` runs the library on concrete inputs.
