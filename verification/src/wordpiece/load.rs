//! Building a tokenizer.
use super::FastWordPiece;
use crate::added_tokens;
use crate::config;
use crate::config::ConfigError;
use crate::json;
use crate::model;
use crate::source;
use crate::text;
use vstd::hash_map::StringHashMap;
use vstd::prelude::*;

verus! {

/// The vocabulary that the entries list.
fn build_vocab(entries: Vec<(String, u32)>, Ghost(map): Ghost<Map<Seq<char>, u32>>) -> (vocab:
    StringHashMap<u32>)
    requires
        json::lists(entries@, map),
    ensures
        vocab@ == map,
{
    let ghost all = entries@;
    let mut entries = entries;
    let mut vocab: StringHashMap<u32> = StringHashMap::new();
    assert(all.take(all.len() as int) == all);
    while entries.len() > 0
        invariant
            json::lists(all, map),
            entries@.len() <= all.len(),
            entries@ == all.take(entries@.len() as int),
            forall|k: Seq<char>| #[trigger]
                vocab@.contains_key(k) ==> map.contains_key(k) && vocab@[k] == map[k],
            forall|i: int|
                entries@.len() <= i < all.len() ==> vocab@.contains_key(#[trigger] all[i].0@),
        decreases entries@.len(),
    {
        let ghost n = entries@.len();
        match entries.pop() {
            Some((token, id)) => {
                assert(all[n - 1] == (token, id));
                vocab.insert(token, id);
                assert(entries@ == all.take(n - 1));
            },
            None => {},
        }
    }
    assert(vocab@ =~= map) by {
        assert forall|k: Seq<char>| map.contains_key(k) implies vocab@.contains_key(k) by {
            let i = choose|i: int| 0 <= i < all.len() && #[trigger] all[i].0@ == k;
            assert(vocab@.contains_key(all[i].0@));
        }
    }
    vocab
}

/// The ids of the single-ASCII-character tokens.
fn single_byte_table(vocab: &StringHashMap<u32>) -> (table: [Option<u32>; 128])
    ensures
        forall|b: int|
            0 <= b < 128 ==> #[trigger] table@[b] == model::lookup(vocab@, seq![b as char]),
{
    let mut table: [Option<u32>; 128] = [None;128];
    let mut b: usize = 0;
    while b < 128
        invariant
            b <= 128,
            forall|d: int|
                0 <= d < b ==> #[trigger] table@[d] == model::lookup(vocab@, seq![d as char]),
        decreases 128 - b,
    {
        let mut key = String::new();
        key.push(b as u8 as char);
        assert(key@ == seq![b as char]);
        table[b] = match vocab.get(key.as_str()) {
            Some(id) => Some(*id),
            None => None,
        };
        b = b + 1;
    }
    table
}

/// The bytes that the tokens start with, and no others.
fn first_byte_table(tokens: &Vec<(String, u32)>) -> (table: [bool; 256])
    requires
        forall|j: int| 0 <= j < tokens@.len() ==> (#[trigger] tokens@[j]).0@.len() > 0,
    ensures
        forall|b: int|
            0 <= b < 256 ==> (#[trigger] table@[b] <==> added_tokens::is_first_byte(
                added_tokens::tokens_view(tokens@),
                b,
            )),
{
    let ghost all = added_tokens::tokens_view(tokens@);
    let mut table: [bool; 256] = [false;256];
    let mut i: usize = 0;
    while i < tokens.len()
        invariant
            all == added_tokens::tokens_view(tokens@),
            i <= tokens@.len(),
            forall|j: int| 0 <= j < tokens@.len() ==> (#[trigger] tokens@[j]).0@.len() > 0,
            forall|b: int|
                0 <= b < 256 ==> (#[trigger] table@[b] <==> added_tokens::is_first_byte(
                    all.take(i as int),
                    b,
                )),
        decreases tokens@.len() - i,
    {
        proof {
            text::lemma_len_at_most_byte_len(tokens@[i as int].0@);
        }
        let ghost before = table@;
        let b: u8 = tokens[i].0.as_str().as_bytes()[0];
        table[b as usize] = true;
        proof {
            let done = all.take(i as int);
            let more = all.take(i + 1);
            assert(more[i as int].0 == tokens@[i as int].0@);
            assert forall|d: int| 0 <= d < 256 implies (#[trigger] table@[d]
                <==> added_tokens::is_first_byte(more, d)) by {
                if before[d] {
                    let j = choose|j: int|
                        0 <= j < done.len() && vstd::utf8::encode_utf8(
                            (#[trigger] done[j]).0,
                        )[0] == d;
                    assert(vstd::utf8::encode_utf8(more[j].0)[0] == d);
                }
                if added_tokens::is_first_byte(more, d) && d != b {
                    let j = choose|j: int|
                        0 <= j < more.len() && vstd::utf8::encode_utf8(
                            (#[trigger] more[j]).0,
                        )[0] == d;
                    assert(vstd::utf8::encode_utf8(done[j].0)[0] == d);
                }
            }
        }
        i = i + 1;
    }
    assert(all.take(i as int) == all);
    table
}

/// Whether the member `type` of `part` is `name`.
fn has_type(part: &serde_json::Value, name: &str) -> (yes: bool)
    ensures
        yes == (config::type_of(Some(json::json_tree(*part))) == Some(name@)),
{
    match json::get_str(part, "type") {
        Some(s) => text::str_eq(s, name),
        None => false,
    }
}

/// The member `name` of `v`, or `default` where it is not a string.
fn get_str_or<'a>(v: &'a serde_json::Value, name: &str, default: &'a str) -> (s: &'a str)
    ensures
        s@ == config::text_or(json::json_tree(*v), name@, default@),
{
    match json::get_str(v, name) {
        Some(s) => s,
        None => default,
    }
}

/// The added token that an entry stands for.
fn read_entry(entry: &serde_json::Value) -> (token: Result<(String, u32), ConfigError>)
    ensures
        match token {
            Ok((content, id)) => config::added_entry(json::json_tree(*entry)) == Ok::<
                (Seq<char>, u32),
                ConfigError,
            >((content@, id)),
            Err(e) => config::added_entry(json::json_tree(*entry)) == Err::<
                (Seq<char>, u32),
                ConfigError,
            >(e),
        },
{
    let content = match json::get_str(entry, "content") {
        Some(s) => s,
        None => return Err(ConfigError::AddedTokenWithoutContent),
    };
    if content.is_empty() {
        return Err(ConfigError::EmptyAddedToken);
    }
    let id: u64 = match json::get_u64(entry, "id") {
        Some(n) => n,
        None => return Err(ConfigError::AddedTokenWithoutId),
    };
    if json::get_bool_or(entry, "normalized", true) {
        return Err(ConfigError::NormalizedAddedToken);
    }
    assert(id as u32 == id % 0x1_0000_0000) by (bit_vector);
    Ok((content.to_owned(), #[verifier::truncate] (id as u32)))
}

/// The added tokens of a `tokenizer.json`, longest content first.
fn read_added_tokens(json: &serde_json::Value) -> (tokens: Result<Vec<(String, u32)>, ConfigError>)
    ensures
        match tokens {
            Ok(list) => config::added_entries(config::entries_of(json::json_tree(*json))) matches Ok(
                given,
            ) && added_tokens::tokens_view(list@) == added_tokens::longest_first(given)
                && added_tokens::is_longest_first(added_tokens::tokens_view(list@)) && forall|
                j: int,
            |
                0 <= j < list@.len() ==> (#[trigger] list@[j]).0@.len() > 0,
            Err(e) => config::added_entries(config::entries_of(json::json_tree(*json))) == Err::<
                Seq<(Seq<char>, u32)>,
                ConfigError,
            >(e),
        },
{
    let mut tokens: Vec<(String, u32)> = Vec::new();
    let ghost entries = config::entries_of(json::json_tree(*json));
    let ghost mut given: Seq<(Seq<char>, u32)> = seq![];
    assert(added_tokens::tokens_view(tokens@) == given);
    let list = match json::get(json, "added_tokens") {
        Some(v) => match v.as_array() {
            Some(list) => list,
            None => return Ok(tokens),
        },
        None => return Ok(tokens),
    };
    assert(entries.take(0) == Seq::<json::JsonTree>::empty());
    let mut i: usize = 0;
    while i < list.len()
        invariant
            entries == config::entries_of(json::json_tree(*json)),
            entries == list@.map_values(|e: serde_json::Value| json::json_tree(e)),
            i <= list@.len(),
            config::added_entries(entries.take(i as int)) == Ok::<
                Seq<(Seq<char>, u32)>,
                ConfigError,
            >(given),
            added_tokens::tokens_view(tokens@) == added_tokens::longest_first(given),
            forall|j: int| 0 <= j < given.len() ==> (#[trigger] given[j]).0.len() > 0,
        decreases list@.len() - i,
    {
        proof {
            assert(entries.take(i + 1).drop_last() == entries.take(i as int));
            assert(entries.take(i + 1).last() == json::json_tree(list@[i as int]));
        }
        match read_entry(&list[i]) {
            Ok((content, id)) => {
                let ghost token = (content@, id);
                added_tokens::insert_token(&mut tokens, content, id);
                proof {
                    assert(given.push(token).drop_last() == given);
                    given = given.push(token);
                }
            },
            Err(e) => {
                proof {
                    config::lemma_first_error(entries, i + 1, e);
                }
                return Err(e);
            },
        }
        i = i + 1;
    }
    proof {
        assert(entries.take(i as int) == entries);
        added_tokens::lemma_longest_first_members(given);
        added_tokens::lemma_longest_first_is_stable_sort(given);
        assert forall|j: int| 0 <= j < tokens@.len() implies (
        #[trigger] tokens@[j]).0@.len() > 0 by {
            let token = added_tokens::tokens_view(tokens@)[j];
            assert(added_tokens::longest_first(given).contains(token));
            assert(given.contains(token));
        }
    }
    Ok(tokens)
}

impl FastWordPiece {
    /// Builds a tokenizer from one of `tokenizers`. `None` says that it is not the BertNormalizer +
    /// BertPreTokenizer + WordPiece pipeline (or cannot be written down), so that the caller keeps
    /// using the tokenizer as it is.
    ///
    /// `Some` says no more than that it is the pipeline. The ids are those of the tokenizer's
    /// `encode_fast` without special tokens only where no added token is to be found as a single
    /// word, neither truncation nor padding is set, special tokens are not set to be encoded as
    /// text, the post-processor leaves the ids alone, no two tokens share an id, and the
    /// vocabulary has the unknown token: these are not looked at.
    pub fn from_tokenizer(tokenizer: &tokenizers::Tokenizer) -> (made: Option<FastWordPiece>)
        ensures
            match made {
                Some(f) => source::read_tokenizer(*tokenizer) == Some(f@) && f.tables_hold(),
                None => source::read_tokenizer(*tokenizer) is None,
            },
    {
        if source::model_token(tokenizer, u32::MAX).is_some() {
            return None;
        }
        match source::serialize(tokenizer) {
            Some(s) => Self::from_text(s.as_str()),
            None => None,
        }
    }

    /// Builds a tokenizer from the text of a `tokenizer.json`, where it is of the pipeline.
    pub fn from_text(s: &str) -> (made: Option<FastWordPiece>)
        ensures
            match made {
                Some(f) => source::read_text(s@) == Some(f@) && f.tables_hold(),
                None => source::read_text(s@) is None,
            },
    {
        match json::parse(s) {
            Ok(v) => match Self::from_json(&v) {
                Ok(f) => Some(f),
                Err(_) => None,
            },
            Err(_) => None,
        }
    }

    /// Builds a tokenizer from a `tokenizer.json`. The error says why it is not one of the
    /// BertNormalizer + BertPreTokenizer + WordPiece pipeline.
    pub fn from_json(json: &serde_json::Value) -> (made: Result<FastWordPiece, ConfigError>)
        ensures
            match made {
                Ok(f) => config::read(json::json_tree(*json)) == Ok::<model::Model, ConfigError>(
                    f@,
                ) && f.tables_hold(),
                Err(e) => config::read(json::json_tree(*json)) == Err::<model::Model, ConfigError>(
                    e,
                ),
            },
    {
        let wordpiece = match json::get(json, "model") {
            Some(v) => v,
            None => return Err(ConfigError::MissingModel),
        };
        if !has_type(wordpiece, "WordPiece") {
            return Err(ConfigError::NotWordPiece);
        }
        let bert_words = match json::get(json, "pre_tokenizer") {
            Some(v) => has_type(v, "BertPreTokenizer"),
            None => false,
        };
        if !bert_words {
            return Err(ConfigError::NotBertPreTokenizer);
        }
        let norm = match json::get(json, "normalizer") {
            Some(v) => v,
            None => return Err(ConfigError::MissingNormalizer),
        };
        if !has_type(norm, "BertNormalizer") {
            return Err(ConfigError::NotBertNormalizer);
        }
        let lowercase = json::get_bool_or(norm, "lowercase", true);
        let clean_text = json::get_bool_or(norm, "clean_text", true);
        let handle_chinese_chars = json::get_bool_or(norm, "handle_chinese_chars", true);
        // Accents that are neither kept nor stripped by name follow the case.
        let strip_accents = json::get_bool_or(norm, "strip_accents", lowercase);

        let vocab_value = match json::get(wordpiece, "vocab") {
            Some(v) => v,
            None => return Err(ConfigError::MissingVocab),
        };
        let entries = match json::id_entries(vocab_value) {
            Ok(list) => list,
            Err(_) => return Err(ConfigError::InvalidVocab),
        };
        let vocab = build_vocab(entries, Ghost(json::id_map_of(json::json_tree(*vocab_value))));
        let unk_id: Option<u32> = match vocab.get(get_str_or(wordpiece, "unk_token", "[UNK]")) {
            Some(id) => Some(*id),
            None => None,
        };
        let continuing_subword_prefix = get_str_or(wordpiece, "continuing_subword_prefix", "##")
            .to_owned();
        let max_input_chars_per_word: usize = match json::get_u64(
            wordpiece,
            "max_input_chars_per_word",
        ) {
            Some(n) => #[verifier::truncate] (n as usize),
            None => 100,
        };
        let single_byte = single_byte_table(&vocab);
        let added = match read_added_tokens(json) {
            Ok(list) => list,
            Err(e) => return Err(e),
        };
        let added_token_first_bytes = first_byte_table(&added);
        assert forall|j: int| 0 <= j < added@.len() implies (
        #[trigger] added_tokens::tokens_view(added@)[j]).0.len() > 0 by {
            assert(added@[j].0@.len() > 0);
        }
        Ok(
            FastWordPiece {
                vocab,
                single_byte,
                unk_id,
                max_input_chars_per_word,
                continuing_subword_prefix,
                clean_text,
                handle_chinese_chars,
                strip_accents,
                lowercase,
                added_tokens: added,
                added_token_first_bytes,
            },
        )
    }
}

} // verus!
