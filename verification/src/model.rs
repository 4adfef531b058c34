//! What a tokenizer is made of, as contracts speak of it.
use vstd::prelude::*;

verus! {

/// A WordPiece model with its BERT normalizer and its added tokens.
#[verifier::ext_equal]
pub struct Model {
    /// The id of each token.
    pub vocab: Map<Seq<char>, u32>,
    /// The id of the unknown token, if the vocabulary has one.
    pub unk_id: Option<u32>,
    /// A word of more characters is unknown.
    pub max_input_chars_per_word: usize,
    /// What a token that continues a word starts with in the vocabulary.
    pub continuing_subword_prefix: Seq<char>,
    /// Whether control characters are dropped and white space becomes spaces.
    pub clean_text: bool,
    /// Whether spaces are put around ideographs.
    pub handle_chinese_chars: bool,
    /// Whether text is decomposed and loses its nonspacing marks.
    pub strip_accents: bool,
    /// Whether text is put in lower case.
    pub lowercase: bool,
    /// The content and the id of each added token, longest content first.
    pub added_tokens: Seq<(Seq<char>, u32)>,
}

/// The id of a token, if the vocabulary has it.
pub open spec fn lookup(vocab: Map<Seq<char>, u32>, token: Seq<char>) -> Option<u32> {
    if vocab.contains_key(token) {
        Some(vocab[token])
    } else {
        None
    }
}

} // verus!
