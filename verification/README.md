# fast_wordpiece

An IDs-only WordPiece tokenizer for the BertNormalizer + BertPreTokenizer + WordPiece pipeline,
written and verified in Verus.

- `src/wordpiece.rs` and `src/wordpiece/`: the tokenizer `FastWordPiece`: loading, splitting at
  added tokens, normalizing, encoding.
- `src/model.rs`: what a tokenizer is made of, as contracts speak of it.
- `src/config.rs`, `src/json.rs`, `src/source.rs`: what a `tokenizer.json` says, how it is read, and
  where it comes from.
- `src/added_tokens.rs`, `src/normalizer.rs`, `src/pre_tokenizer.rs`, `src/subwords.rs`,
  `src/encoding.rs`: the steps from text to ids, each with its laws.
- `src/unicode.rs`, `src/text.rs`: characters, and positions in UTF-8 text.

What std, `serde_json`, `tokenizers`, `unicode_categories` and `unicode-normalization` compute is
trusted, in the functions whose doc comments name them; all else is proved.
