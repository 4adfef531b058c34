//! What a `tokenizer.json` says of a tokenizer.
use crate::added_tokens;
use crate::json;
use crate::model;
use vstd::prelude::*;

verus! {

/// Why a `tokenizer.json` is not one of the pipeline that this library implements.
#[derive(Debug, Clone, Copy, PartialEq, Eq, Structural)]
pub enum ConfigError {
    /// There is no `model`.
    MissingModel,
    /// `model.type` is not "WordPiece".
    NotWordPiece,
    /// `pre_tokenizer.type` is not "BertPreTokenizer".
    NotBertPreTokenizer,
    /// There is no `normalizer`.
    MissingNormalizer,
    /// `normalizer.type` is not "BertNormalizer".
    NotBertNormalizer,
    /// There is no `model.vocab`.
    MissingVocab,
    /// `model.vocab` is not a map from strings to ids.
    InvalidVocab,
    /// An added token has no `content`.
    AddedTokenWithoutContent,
    /// The `content` of an added token is empty.
    EmptyAddedToken,
    /// An added token has no `id`.
    AddedTokenWithoutId,
    /// An added token is to be matched in normalized text, which is not implemented.
    NormalizedAddedToken,
}

/// The truth value `name` of the normalizer, or `default` where it is not given.
pub open spec fn flag(norm: json::JsonTree, name: Seq<char>, default: bool) -> bool {
    match json::bool_of(json::member(norm, name)) {
        Some(b) => b,
        None => default,
    }
}

/// The text `name` of the model, or `default` where it is not given.
pub open spec fn text_or(t: json::JsonTree, name: Seq<char>, default: Seq<char>) -> Seq<char> {
    match json::text_of(json::member(t, name)) {
        Some(s) => s,
        None => default,
    }
}

/// The added token that an entry of `added_tokens` stands for. An id loses the bits that do not
/// fit.
pub open spec fn added_entry(t: json::JsonTree) -> Result<(Seq<char>, u32), ConfigError> {
    match json::text_of(json::member(t, "content"@)) {
        None => Err(ConfigError::AddedTokenWithoutContent),
        Some(content) => if content.len() == 0 {
            Err(ConfigError::EmptyAddedToken)
        } else {
            match json::number_of(json::member(t, "id"@)) {
                None => Err(ConfigError::AddedTokenWithoutId),
                Some(id) => if flag(t, "normalized"@, true) {
                    Err(ConfigError::NormalizedAddedToken)
                } else {
                    Ok((content, (id % 0x1_0000_0000) as u32))
                },
            }
        },
    }
}

/// The added tokens that the entries stand for, or the error of the first entry that has one.
pub open spec fn added_entries(list: Seq<json::JsonTree>) -> Result<
    Seq<(Seq<char>, u32)>,
    ConfigError,
>
    decreases list.len(),
{
    if list.len() == 0 {
        Ok(seq![])
    } else {
        match added_entries(list.drop_last()) {
            Err(e) => Err(e),
            Ok(tokens) => match added_entry(list.last()) {
                Err(e) => Err(e),
                Ok(token) => Ok(tokens.push(token)),
            },
        }
    }
}

/// The entries of `added_tokens`; none where it is not an array.
pub open spec fn entries_of(t: json::JsonTree) -> Seq<json::JsonTree> {
    match json::array_of(json::member(t, "added_tokens"@)) {
        Some(list) => list,
        None => seq![],
    }
}

/// The type of a part of the pipeline.
pub open spec fn type_of(part: Option<json::JsonTree>) -> Option<Seq<char>> {
    match part {
        Some(t) => json::text_of(json::member(t, "type"@)),
        None => None,
    }
}

/// The model that the settings and the vocabulary give, with these added tokens.
pub open spec fn model_of(
    wordpiece: json::JsonTree,
    norm: json::JsonTree,
    vocab: Map<Seq<char>, u32>,
    tokens: Seq<(Seq<char>, u32)>,
) -> model::Model {
    let unk_token = text_or(wordpiece, "unk_token"@, "[UNK]"@);
    let lowercase = flag(norm, "lowercase"@, true);
    model::Model {
        vocab,
        unk_id: model::lookup(vocab, unk_token),
        max_input_chars_per_word: match json::number_of(
            json::member(wordpiece, "max_input_chars_per_word"@),
        ) {
            Some(n) => n as usize,
            None => 100,
        },
        continuing_subword_prefix: text_or(wordpiece, "continuing_subword_prefix"@, "##"@),
        clean_text: flag(norm, "clean_text"@, true),
        handle_chinese_chars: flag(norm, "handle_chinese_chars"@, true),
        strip_accents: flag(norm, "strip_accents"@, lowercase),
        lowercase,
        added_tokens: added_tokens::longest_first(tokens),
    }
}

/// The model that a `tokenizer.json` describes, or why it describes none: the first of the
/// reasons, in the order of [`ConfigError`], that holds.
pub open spec fn read(t: json::JsonTree) -> Result<model::Model, ConfigError> {
    match json::member(t, "model"@) {
        None => Err(ConfigError::MissingModel),
        Some(wordpiece) => if type_of(Some(wordpiece)) != Some("WordPiece"@) {
            Err(ConfigError::NotWordPiece)
        } else if type_of(json::member(t, "pre_tokenizer"@)) != Some("BertPreTokenizer"@) {
            Err(ConfigError::NotBertPreTokenizer)
        } else {
            match json::member(t, "normalizer"@) {
                None => Err(ConfigError::MissingNormalizer),
                Some(norm) => if type_of(Some(norm)) != Some("BertNormalizer"@) {
                    Err(ConfigError::NotBertNormalizer)
                } else {
                    match json::member(wordpiece, "vocab"@) {
                        None => Err(ConfigError::MissingVocab),
                        Some(vocab) => if !json::is_id_map(vocab) {
                            Err(ConfigError::InvalidVocab)
                        } else {
                            match added_entries(entries_of(t)) {
                                Err(e) => Err(e),
                                Ok(tokens) => Ok(
                                    model_of(wordpiece, norm, json::id_map_of(vocab), tokens),
                                ),
                            }
                        },
                    }
                },
            }
        },
    }
}

/// The first error among the entries is the error of all of them.
pub(crate) proof fn lemma_first_error(list: Seq<json::JsonTree>, n: int, e: ConfigError)
    requires
        0 <= n <= list.len(),
        added_entries(list.take(n)) == Err::<Seq<(Seq<char>, u32)>, ConfigError>(e),
    ensures
        added_entries(list) == Err::<Seq<(Seq<char>, u32)>, ConfigError>(e),
    decreases list.len(),
{
    if n == list.len() {
        assert(list.take(n) == list);
    } else {
        assert(list.drop_last().take(n) == list.take(n));
        lemma_first_error(list.drop_last(), n, e);
    }
}

// --- Laws --------------------------------------------------------------------
/// Where it is not given as true or false, the stripping of accents follows the case.
pub proof fn lemma_strip_accents_follows_lowercase(t: json::JsonTree, norm: json::JsonTree)
    requires
        read(t) is Ok,
        json::member(t, "normalizer"@) == Some(norm),
        json::bool_of(json::member(norm, "strip_accents"@)) is None,
    ensures
        read(t)->Ok_0.strip_accents == read(t)->Ok_0.lowercase,
{
}

/// An entry of `added_tokens` that is accepted: it has content and an id, and says that it is not
/// matched in normalized text.
pub open spec fn is_literal_entry(t: json::JsonTree) -> bool {
    &&& json::text_of(json::member(t, "content"@)) matches Some(content) && content.len() > 0
    &&& json::number_of(json::member(t, "id"@)) is Some
    &&& json::bool_of(json::member(t, "normalized"@)) == Some(false)
}

proof fn lemma_entries_are_literal(list: Seq<json::JsonTree>)
    ensures
        added_entries(list) is Ok <==> forall|i: int|
            0 <= i < list.len() ==> is_literal_entry(#[trigger] list[i]),
        added_entries(list) matches Ok(tokens) ==> tokens.len() == list.len() && forall|i: int|
            0 <= i < list.len() ==> added_entry(list[i]) == Ok::<(Seq<char>, u32), ConfigError>(
                #[trigger] tokens[i],
            ),
    decreases list.len(),
{
    if list.len() > 0 {
        let head = list.drop_last();
        lemma_entries_are_literal(head);
        assert(forall|i: int| 0 <= i < head.len() ==> head[i] == #[trigger] list[i]);
        assert(is_literal_entry(list.last()) <==> added_entry(list.last()) is Ok);
        if forall|i: int| 0 <= i < list.len() ==> is_literal_entry(#[trigger] list[i]) {
            assert forall|i: int| 0 <= i < head.len() implies is_literal_entry(
                #[trigger] head[i],
            ) by {
                assert(is_literal_entry(list[i]));
            }
            assert(is_literal_entry(list[list.len() - 1]));
        }
        if added_entries(list) is Ok {
            assert forall|i: int| 0 <= i < list.len() implies is_literal_entry(
                #[trigger] list[i],
            ) by {
                if i < head.len() {
                    assert(is_literal_entry(head[i]));
                }
            }
            let tokens = added_entries(list)->Ok_0;
            let before = added_entries(head)->Ok_0;
            assert forall|i: int| 0 <= i < list.len() implies added_entry(list[i]) == Ok::<
                (Seq<char>, u32),
                ConfigError,
            >(#[trigger] tokens[i]) by {
                if i < head.len() {
                    assert(tokens[i] == before[i]);
                    assert(added_entry(head[i]) == Ok::<(Seq<char>, u32), ConfigError>(before[i]));
                }
            }
        }
    }
}

/// What is accepted is exactly the one pipeline: a WordPiece model with a vocabulary, the BERT
/// pre-tokenizer and the BERT normalizer, with added tokens that are all literal.
pub proof fn lemma_exactly_the_pipeline_is_read(t: json::JsonTree)
    ensures
        read(t) is Ok <==> {
            &&& type_of(json::member(t, "model"@)) == Some("WordPiece"@)
            &&& type_of(json::member(t, "pre_tokenizer"@)) == Some("BertPreTokenizer"@)
            &&& type_of(json::member(t, "normalizer"@)) == Some("BertNormalizer"@)
            &&& json::member(json::member(t, "model"@)->0, "vocab"@) matches Some(vocab)
                && json::is_id_map(vocab)
            &&& forall|i: int|
                0 <= i < entries_of(t).len() ==> is_literal_entry(#[trigger] entries_of(t)[i])
        },
{
    lemma_entries_are_literal(entries_of(t));
}

/// The model that is read has its added tokens longest first, none of them empty, and its unknown
/// token, if it has one, in the vocabulary.
pub proof fn lemma_model_is_well_formed(t: json::JsonTree)
    requires
        read(t) is Ok,
    ensures
        ({
            let m = read(t)->Ok_0;
            &&& added_tokens::is_longest_first(m.added_tokens)
            &&& m.added_tokens.len() == entries_of(t).len()
            &&& forall|j: int|
                0 <= j < m.added_tokens.len() ==> (#[trigger] m.added_tokens[j]).0.len() > 0
            &&& m.unk_id matches Some(id) ==> m.vocab.contains_value(id)
        }),
{
    let m = read(t)->Ok_0;
    let tokens = added_entries(entries_of(t))->Ok_0;
    lemma_entries_are_literal(entries_of(t));
    added_tokens::lemma_longest_first_is_stable_sort(tokens);
    added_tokens::lemma_longest_first_members(tokens);
    assert forall|j: int| 0 <= j < m.added_tokens.len() implies (
    #[trigger] m.added_tokens[j]).0.len() > 0 by {
        assert(m.added_tokens.contains(m.added_tokens[j]));
        let i = choose|i: int| 0 <= i < tokens.len() && tokens[i] == m.added_tokens[j];
        assert(added_entry(entries_of(t)[i]) == Ok::<(Seq<char>, u32), ConfigError>(tokens[i]));
    }
}

proof fn lemma_entry_error_kinds(list: Seq<json::JsonTree>)
    ensures
        added_entries(list) matches Err(e) ==> e == ConfigError::AddedTokenWithoutContent || e
            == ConfigError::EmptyAddedToken || e == ConfigError::AddedTokenWithoutId || e
            == ConfigError::NormalizedAddedToken,
    decreases list.len(),
{
    if list.len() > 0 {
        lemma_entry_error_kinds(list.drop_last());
    }
}

/// Which part of a `tokenizer.json` is at fault: the first of these, in this order, that is missing
/// or is not what it has to be; and if none is, the fault can only lie with an added token.
pub proof fn lemma_first_fault_is_named(t: json::JsonTree)
    ensures
        ({
            let wordpiece = json::member(t, "model"@);
            let words = json::member(t, "pre_tokenizer"@);
            let norm = json::member(t, "normalizer"@);
            let has_model = wordpiece is Some;
            let is_wordpiece = has_model && json::text_of(
                json::member(wordpiece->0, "type"@),
            ) == Some("WordPiece"@);
            let is_bert_words = is_wordpiece && words is Some && json::text_of(
                json::member(words->0, "type"@),
            ) == Some("BertPreTokenizer"@);
            let has_norm = is_bert_words && norm is Some;
            let is_bert_norm = has_norm && json::text_of(json::member(norm->0, "type"@)) == Some(
                "BertNormalizer"@,
            );
            let has_vocab = is_bert_norm && json::member(wordpiece->0, "vocab"@) is Some;
            let is_vocab = has_vocab && json::is_id_map(json::member(wordpiece->0, "vocab"@)->0);
            &&& !has_model <==> read(t) == Err::<model::Model, ConfigError>(
                ConfigError::MissingModel,
            )
            &&& has_model && !is_wordpiece <==> read(t) == Err::<model::Model, ConfigError>(
                ConfigError::NotWordPiece,
            )
            &&& is_wordpiece && !is_bert_words <==> read(t) == Err::<model::Model, ConfigError>(
                ConfigError::NotBertPreTokenizer,
            )
            &&& is_bert_words && !has_norm <==> read(t) == Err::<model::Model, ConfigError>(
                ConfigError::MissingNormalizer,
            )
            &&& has_norm && !is_bert_norm <==> read(t) == Err::<model::Model, ConfigError>(
                ConfigError::NotBertNormalizer,
            )
            &&& is_bert_norm && !has_vocab <==> read(t) == Err::<model::Model, ConfigError>(
                ConfigError::MissingVocab,
            )
            &&& has_vocab && !is_vocab <==> read(t) == Err::<model::Model, ConfigError>(
                ConfigError::InvalidVocab,
            )
        }),
{
    lemma_entry_error_kinds(entries_of(t));
}

/// The rest is at fault by the first added token that is: one without content, with empty content,
/// without an id, or that does not say that it is not matched in normalized text.
pub proof fn lemma_first_bad_added_token_is_named(
    t: json::JsonTree,
    list: Seq<json::JsonTree>,
    i: int,
)
    requires
        read(t) != Err::<model::Model, ConfigError>(ConfigError::MissingModel),
        read(t) != Err::<model::Model, ConfigError>(ConfigError::NotWordPiece),
        read(t) != Err::<model::Model, ConfigError>(ConfigError::NotBertPreTokenizer),
        read(t) != Err::<model::Model, ConfigError>(ConfigError::MissingNormalizer),
        read(t) != Err::<model::Model, ConfigError>(ConfigError::NotBertNormalizer),
        read(t) != Err::<model::Model, ConfigError>(ConfigError::MissingVocab),
        read(t) != Err::<model::Model, ConfigError>(ConfigError::InvalidVocab),
        json::member(t, "added_tokens"@) == Some(json::JsonTree::Array(list)),
        0 <= i < list.len(),
        forall|k: int|
            0 <= k < i ==> {
                let entry = #[trigger] list[k];
                &&& json::text_of(json::member(entry, "content"@)) is Some
                &&& json::text_of(json::member(entry, "content"@))->0.len() > 0
                &&& json::number_of(json::member(entry, "id"@)) is Some
                &&& json::bool_of(json::member(entry, "normalized"@)) == Some(false)
            },
    ensures
        ({
            let content = json::text_of(json::member(list[i], "content"@));
            let id = json::number_of(json::member(list[i], "id"@));
            let normalized = json::bool_of(json::member(list[i], "normalized"@));
            &&& content is None ==> read(t) == Err::<model::Model, ConfigError>(
                ConfigError::AddedTokenWithoutContent,
            )
            &&& content is Some && content->0.len() == 0 ==> read(t) == Err::<
                model::Model,
                ConfigError,
            >(ConfigError::EmptyAddedToken)
            &&& content is Some && content->0.len() > 0 && id is None ==> read(t) == Err::<
                model::Model,
                ConfigError,
            >(ConfigError::AddedTokenWithoutId)
            &&& content is Some && content->0.len() > 0 && id is Some && normalized != Some(false)
                ==> read(t) == Err::<model::Model, ConfigError>(ConfigError::NormalizedAddedToken)
        }),
{
    lemma_first_fault_is_named(t);
    assert(entries_of(t) == list);
    let head = list.take(i);
    let up_to = list.take(i + 1);
    assert forall|k: int| 0 <= k < head.len() implies is_literal_entry(#[trigger] head[k]) by {
        assert(head[k] == list[k]);
    }
    lemma_entries_are_literal(head);
    assert(up_to.drop_last() == head);
    assert(up_to.last() == list[i]);
    if let Err(e) = added_entry(list[i]) {
        lemma_first_error(list, i + 1, e);
    }
}

/// A `tokenizer.json` with none of these faults is accepted.
pub proof fn lemma_faultless_is_read(t: json::JsonTree)
    requires
        read(t) != Err::<model::Model, ConfigError>(ConfigError::MissingModel),
        read(t) != Err::<model::Model, ConfigError>(ConfigError::NotWordPiece),
        read(t) != Err::<model::Model, ConfigError>(ConfigError::NotBertPreTokenizer),
        read(t) != Err::<model::Model, ConfigError>(ConfigError::MissingNormalizer),
        read(t) != Err::<model::Model, ConfigError>(ConfigError::NotBertNormalizer),
        read(t) != Err::<model::Model, ConfigError>(ConfigError::MissingVocab),
        read(t) != Err::<model::Model, ConfigError>(ConfigError::InvalidVocab),
        json::array_of(json::member(t, "added_tokens"@)) matches Some(list) ==> forall|k: int|
            0 <= k < list.len() ==> {
                let entry = #[trigger] list[k];
                &&& json::text_of(json::member(entry, "content"@)) is Some
                &&& json::text_of(json::member(entry, "content"@))->0.len() > 0
                &&& json::number_of(json::member(entry, "id"@)) is Some
                &&& json::bool_of(json::member(entry, "normalized"@)) == Some(false)
            },
    ensures
        read(t) is Ok,
{
    lemma_first_fault_is_named(t);
    let list = entries_of(t);
    assert forall|k: int| 0 <= k < list.len() implies is_literal_entry(#[trigger] list[k]) by {
        let entry = list[k];
        assert(json::number_of(json::member(entry, "id"@)) is Some);
    }
    lemma_entries_are_literal(list);
}

/// What is read from where, and what holds where it is not given: each setting of the normalizer
/// and of the model by its own name, the vocabulary as it stands, the unknown token's id from the
/// vocabulary, and each added token with its own content and id, longest first.
pub proof fn lemma_settings_come_from_their_names(
    t: json::JsonTree,
    wordpiece: json::JsonTree,
    norm: json::JsonTree,
)
    requires
        read(t) is Ok,
        json::member(t, "model"@) == Some(wordpiece),
        json::member(t, "normalizer"@) == Some(norm),
    ensures
        ({
            let m = read(t)->Ok_0;
            let lowercase = json::bool_of(json::member(norm, "lowercase"@));
            let clean_text = json::bool_of(json::member(norm, "clean_text"@));
            let spaced = json::bool_of(json::member(norm, "handle_chinese_chars"@));
            let strip_accents = json::bool_of(json::member(norm, "strip_accents"@));
            let unk_token = json::text_of(json::member(wordpiece, "unk_token"@));
            let prefix = json::text_of(json::member(wordpiece, "continuing_subword_prefix"@));
            let limit = json::number_of(json::member(wordpiece, "max_input_chars_per_word"@));
            let unknown = if unk_token is Some {
                unk_token->0
            } else {
                "[UNK]"@
            };
            &&& m.lowercase <==> lowercase != Some(false)
            &&& m.clean_text <==> clean_text != Some(false)
            &&& m.handle_chinese_chars <==> spaced != Some(false)
            &&& m.strip_accents <==> strip_accents == Some(true) || (strip_accents is None
                && lowercase != Some(false))
            &&& json::member(wordpiece, "vocab"@) is Some
            &&& m.vocab == json::id_map_of(json::member(wordpiece, "vocab"@)->0)
            &&& m.vocab.contains_key(unknown) ==> m.unk_id == Some(m.vocab[unknown])
            &&& !m.vocab.contains_key(unknown) ==> m.unk_id is None
            &&& prefix is Some ==> m.continuing_subword_prefix == prefix->0
            &&& prefix is None ==> m.continuing_subword_prefix == "##"@
            &&& limit is Some ==> m.max_input_chars_per_word == limit->0 as usize
            &&& limit is None ==> m.max_input_chars_per_word == 100
        }),
        json::array_of(json::member(t, "added_tokens"@)) is None ==> read(
            t,
        )->Ok_0.added_tokens.len() == 0,
        json::array_of(json::member(t, "added_tokens"@)) matches Some(list) ==> read(
            t,
        )->Ok_0.added_tokens == added_tokens::longest_first(
            Seq::new(
                list.len(),
                |k: int|
                    (
                        json::text_of(json::member(list[k], "content"@))->0,
                        (json::number_of(json::member(list[k], "id"@))->0 % 0x1_0000_0000) as u32,
                    ),
            ),
        ),
{
    let list = entries_of(t);
    let tokens = added_entries(list)->Ok_0;
    lemma_entries_are_literal(list);
    let given = Seq::new(
        list.len(),
        |k: int|
            (
                json::text_of(json::member(list[k], "content"@))->0,
                (json::number_of(json::member(list[k], "id"@))->0 % 0x1_0000_0000) as u32,
            ),
    );
    assert(tokens =~= given) by {
        assert forall|k: int| 0 <= k < list.len() implies tokens[k] == given[k] by {
            assert(added_entry(list[k]) == Ok::<(Seq<char>, u32), ConfigError>(tokens[k]));
            assert(is_literal_entry(list[k]));
        }
    }
}

} // verus!
