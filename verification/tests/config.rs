//! Which `tokenizer.json` is accepted, and what is read from it.
use fast_wordpiece::{ConfigError, FastWordPiece};
use serde_json::Value;
use std::str::FromStr;
use tokenizers::{AddedToken, Tokenizer};

fn text(s: &str) -> Value {
    Value::String(s.to_string())
}

fn object(members: Vec<(&str, Value)>) -> Value {
    let mut map: serde_json::Map<String, Value> = serde_json::Map::new();
    for (k, v) in members {
        map.insert(k.to_string(), v);
    }
    Value::Object(map)
}

fn typed(name: &str) -> Value {
    object(vec![("type", text(name))])
}

fn vocab(tokens: &[(&str, u64)]) -> Value {
    object(tokens.iter().map(|(t, id)| (*t, Value::from(*id))).collect())
}

fn model(tokens: &[(&str, u64)]) -> Value {
    object(vec![("type", text("WordPiece")), ("vocab", vocab(tokens))])
}

fn added(content: &str, id: u64) -> Value {
    object(vec![
        ("content", text(content)),
        ("id", Value::from(id)),
        ("normalized", Value::Bool(false)),
    ])
}

fn file(model: Value, norm: Value, added: Value) -> Value {
    object(vec![
        ("model", model),
        ("pre_tokenizer", typed("BertPreTokenizer")),
        ("normalizer", norm),
        ("added_tokens", added),
    ])
}

fn plain(tokens: &[(&str, u64)]) -> Value {
    file(model(tokens), typed("BertNormalizer"), Value::Array(vec![]))
}

fn error_of(v: &Value) -> ConfigError {
    match FastWordPiece::from_json(v) {
        Ok(_) => panic!("accepted"),
        Err(e) => e,
    }
}

/// A non-WordPiece pipeline must not take the fast path.
#[test]
fn non_wordpiece_falls_back() {
    let spec = object(vec![
        ("model", object(vec![("type", text("Unigram"))])),
        ("pre_tokenizer", object(vec![("type", text("Metaspace"))])),
        ("normalizer", object(vec![("type", text("Precompiled"))])),
    ]);
    assert!(
        FastWordPiece::from_json(&spec).is_err(),
        "non-WordPiece pipeline must fall back to the crate tokenizer"
    );
    assert_eq!(error_of(&spec), ConfigError::NotWordPiece);
    assert!(FastWordPiece::from_text(&spec.to_string()).is_none());
}

#[test]
fn missing_parts_are_named() {
    assert_eq!(error_of(&Value::Null), ConfigError::MissingModel);
    assert_eq!(error_of(&object(vec![])), ConfigError::MissingModel);
    assert_eq!(error_of(&object(vec![("model", Value::Null)])), ConfigError::NotWordPiece);
    assert_eq!(error_of(&object(vec![("model", typed("WordPiece"))])), ConfigError::NotBertPreTokenizer);
    let mut members = vec![("model", typed("WordPiece")), ("pre_tokenizer", typed("BertPreTokenizer"))];
    assert_eq!(error_of(&object(members.clone())), ConfigError::MissingNormalizer);
    members.push(("normalizer", typed("Lowercase")));
    assert_eq!(error_of(&object(members.clone())), ConfigError::NotBertNormalizer);
    members.pop();
    members.push(("normalizer", typed("BertNormalizer")));
    assert_eq!(error_of(&object(members)), ConfigError::MissingVocab);
    let other = object(vec![("model", model(&[])), ("pre_tokenizer", typed("Whitespace"))]);
    assert_eq!(error_of(&other), ConfigError::NotBertPreTokenizer);
}

#[test]
fn vocab_must_map_strings_to_ids() {
    for bad in [
        Value::Array(vec![]),
        Value::Null,
        object(vec![("a", text("1"))]),
        object(vec![("a", Value::from(-1))]),
        object(vec![("a", Value::from(1.0))]),
        object(vec![("a", Value::from(4294967296u64))]),
        object(vec![("a", Value::from(1)), ("b", Value::Null)]),
    ] {
        let m = object(vec![("type", text("WordPiece")), ("vocab", bad)]);
        assert_eq!(
            error_of(&file(m, typed("BertNormalizer"), Value::Array(vec![]))),
            ConfigError::InvalidVocab
        );
    }
    let top = FastWordPiece::from_json(&plain(&[("a", 4294967295), ("bc", 4294967294)])).unwrap();
    assert_eq!(top.encode_ids("a bc"), vec![4294967295, 4294967294]);
}

#[test]
fn added_token_errors_are_named() {
    let with = |entry: Value| {
        file(model(&[]), typed("BertNormalizer"), Value::Array(vec![added("[A]", 0), entry]))
    };
    assert_eq!(error_of(&with(object(vec![]))), ConfigError::AddedTokenWithoutContent);
    assert_eq!(
        error_of(&with(object(vec![("content", Value::from(1))]))),
        ConfigError::AddedTokenWithoutContent
    );
    assert_eq!(error_of(&with(added("", 1))), ConfigError::EmptyAddedToken);
    assert_eq!(error_of(&with(object(vec![("content", text("[B]"))]))), ConfigError::AddedTokenWithoutId);
    assert_eq!(
        error_of(&with(object(vec![("content", text("[B]")), ("id", Value::from(-1))]))),
        ConfigError::AddedTokenWithoutId
    );
    assert_eq!(
        error_of(&with(object(vec![("content", text("[B]")), ("id", Value::from(1))]))),
        ConfigError::NormalizedAddedToken
    );
    assert_eq!(
        error_of(&with(object(vec![
            ("content", text("[B]")),
            ("id", Value::from(1)),
            ("normalized", Value::Bool(true)),
        ]))),
        ConfigError::NormalizedAddedToken
    );
}

#[test]
fn the_first_bad_added_token_decides() {
    let list = Value::Array(vec![added("", 1), object(vec![])]);
    assert_eq!(error_of(&file(model(&[]), typed("BertNormalizer"), list)), ConfigError::EmptyAddedToken);
    // A bad vocabulary comes before a bad added token.
    let m = object(vec![("type", text("WordPiece")), ("vocab", Value::Null)]);
    let list = Value::Array(vec![object(vec![])]);
    assert_eq!(error_of(&file(m, typed("BertNormalizer"), list)), ConfigError::InvalidVocab);
}

#[test]
fn added_tokens_that_are_no_array_are_none() {
    let f = FastWordPiece::from_json(&file(model(&[("a", 7)]), typed("BertNormalizer"), text("[A]"))).unwrap();
    assert_eq!(f.encode_ids("a"), vec![7]);
}

#[test]
fn an_added_id_loses_the_bits_that_do_not_fit() {
    let list = Value::Array(vec![added("[A]", 4294967296 + 5)]);
    let f = FastWordPiece::from_json(&file(model(&[]), typed("BertNormalizer"), list)).unwrap();
    assert_eq!(f.encode_ids("[A]"), vec![5]);
}

#[test]
fn settings_have_defaults() {
    // Lower-casing, accent stripping, cleaning and ideograph spacing are on.
    let f = FastWordPiece::from_json(&plain(&[("[UNK]", 9), ("ab", 1), ("##c", 2)])).unwrap();
    assert_eq!(f.normalize("ÁB\u{7}C 中D"), "abc  中 d");
    assert_eq!(f.encode_ids("ABC"), vec![1, 2]);
    assert_eq!(f.encode_ids("zz"), vec![9]);
    // A word may have 100 characters.
    let f = FastWordPiece::from_json(&plain(&[("[UNK]", 9), ("a", 1), ("##a", 2)])).unwrap();
    assert_eq!(f.encode_ids(&"a".repeat(100)).len(), 100);
    assert_eq!(f.encode_ids(&"a".repeat(101)), vec![9]);
}

#[test]
fn model_settings_are_read() {
    let m = object(vec![
        ("type", text("WordPiece")),
        ("vocab", vocab(&[("<unk>", 3), ("a", 1), ("@@b", 2), ("é", 4)])),
        ("unk_token", text("<unk>")),
        ("continuing_subword_prefix", text("@@")),
        ("max_input_chars_per_word", Value::from(2)),
    ]);
    let f = FastWordPiece::from_json(&file(m, typed("BertNormalizer"), Value::Array(vec![]))).unwrap();
    assert_eq!(f.encode_ids("ab"), vec![1, 2]);
    assert_eq!(f.encode_ids("abb"), vec![3]);
    assert_eq!(f.encode_ids("x"), vec![3]);
}

#[test]
fn strip_accents_follows_lowercase_unless_given() {
    for (lowercase, strip, want) in [
        (true, Value::Null, "e"),
        (false, Value::Null, "É"),
        (true, Value::Bool(false), "é"),
        (false, Value::Bool(true), "E"),
    ] {
        let norm = object(vec![
            ("type", text("BertNormalizer")),
            ("lowercase", Value::Bool(lowercase)),
            ("strip_accents", strip),
        ]);
        let f = FastWordPiece::from_json(&file(model(&[]), norm, Value::Array(vec![]))).unwrap();
        assert_eq!(f.normalize("É"), want);
    }
}

#[test]
fn text_that_is_no_json_gives_none() {
    assert!(FastWordPiece::from_text("{").is_none());
    assert!(FastWordPiece::from_text("").is_none());
    assert!(FastWordPiece::from_text("[1]").is_none());
    assert!(FastWordPiece::from_text(&plain(&[("a", 1)]).to_string()).is_some());
}

#[test]
fn other_tokenizers_give_none() {
    let json = "{\"version\":\"1.0\",\"truncation\":null,\"padding\":null,\"added_tokens\":[],\
                \"normalizer\":null,\"pre_tokenizer\":null,\"post_processor\":null,\"decoder\":null,\
                \"model\":{\"type\":\"WordLevel\",\"vocab\":{\"a\":0},\"unk_token\":\"a\"}}";
    let tok = Tokenizer::from_str(json).unwrap();
    assert!(FastWordPiece::from_tokenizer(&tok).is_none());
}

#[test]
fn a_tokenizer_with_the_largest_id_in_its_vocabulary_gives_none() {
    assert!(FastWordPiece::from_tokenizer(&bert_tokenizer("\"[UNK]\":0,\"a\":4294967295")).is_none());
    assert!(FastWordPiece::from_tokenizer(&bert_tokenizer("\"[UNK]\":0,\"a\":1")).is_some());
}

#[test]
fn an_added_token_may_have_the_largest_id() {
    let mut tok = bert_tokenizer("\"[UNK]\":0,\"[X]\":4294967295");
    tok.add_special_tokens(&[AddedToken::from("[X]", true)]);
    tok.with_model(bert_tokenizer("\"[UNK]\":0,\"a\":1").get_model().clone());
    assert_eq!(tok.id_to_token(4294967295), Some("[X]".to_string()));
    let f = FastWordPiece::from_tokenizer(&tok).unwrap();
    assert_eq!(f.encode_ids("a[X]b"), vec![1, 4294967295, 0]);
    assert_eq!(f.encode_ids("a[X]b"), tok.encode_fast("a[X]b", false).unwrap().get_ids().to_vec());
}

/// A tokenizer of the pipeline with this vocabulary, in JSON.
fn bert_tokenizer(vocab: &str) -> Tokenizer {
    let json = "{\"version\":\"1.0\",\"truncation\":null,\"padding\":null,\"added_tokens\":[],\
                \"normalizer\":{\"type\":\"BertNormalizer\",\"clean_text\":true,\"handle_chinese_chars\":true,\
                \"strip_accents\":null,\"lowercase\":true},\"pre_tokenizer\":{\"type\":\"BertPreTokenizer\"},\
                \"post_processor\":null,\"decoder\":null,\"model\":{\"type\":\"WordPiece\",\"unk_token\":\"[UNK]\",\
                \"continuing_subword_prefix\":\"##\",\"max_input_chars_per_word\":100,\
                \"vocab\":{VOCAB}}}";
    Tokenizer::from_str(&json.replace("VOCAB", vocab)).unwrap()
}
