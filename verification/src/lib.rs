//! A purpose-built, IDs-only WordPiece tokenizer.
//!
//! It maps text to ids for the BertNormalizer + BertPreTokenizer + WordPiece pipeline and does
//! nothing else: no offsets, alignments or masks. [`FastWordPiece::from_tokenizer`] gives a
//! tokenizer only where the loaded one is exactly this pipeline, and `None` otherwise, so that a
//! caller can keep the loaded one for everything else.
//!
//! The pipeline is all that is read from the loaded tokenizer. The ids are those that its
//! `encode_fast` gives without special tokens only where none of these holds: an added token is
//! to be found as a single word, truncation or padding is set, special tokens are set to be
//! encoded as text, the post-processor changes ids, two tokens share an id, or the vocabulary has
//! no unknown token (`encode_fast` then fails on an unknown word, which is skipped here). A
//! tokenizer with such a setting is accepted all the same: a caller that has one keeps it.
//!
//! Contracts speak of a tokenizer by its [`model::Model`]. What it makes of a text is
//! [`encoding::encode`]: added tokens are found first ([`added_tokens::split`]), the text between
//! them is normalized ([`normalizer::normal_form`]) and split into words ([`pre_tokenizer::words`]),
//! and each word is cut into tokens of the vocabulary ([`subwords::word_ids`]).

pub mod added_tokens;
pub mod config;
pub mod encoding;
pub mod json;
pub mod model;
pub mod normalizer;
pub mod pre_tokenizer;
pub mod source;
pub mod subwords;
pub mod text;
pub mod unicode;
pub mod wordpiece;

pub use added_tokens::Piece;
pub use config::ConfigError;
pub use pre_tokenizer::{ascii_class, pre_tokenize};
pub use unicode::{is_ascii_space, is_chinese_char, is_control, is_whitespace};
pub use wordpiece::FastWordPiece;
