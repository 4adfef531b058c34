//! Tokenizers of the `tokenizers` crate, as a source of settings and vocabulary.
use crate::config;
use crate::json;
use crate::model;
use vstd::prelude::*;

verus! {

#[verifier::external_type_specification]
#[verifier::external_body]
pub struct ExTokenizer(tokenizers::Tokenizer);

/// The token that the model of a tokenizer of `tokenizers` gives for an id; added tokens do not
/// count.
pub uninterp spec fn model_token_of(t: tokenizers::Tokenizer, id: u32) -> Option<Seq<char>>;

/// The `tokenizer.json` that a tokenizer of `tokenizers` writes; `None` if it fails to.
pub uninterp spec fn serialized(t: tokenizers::Tokenizer) -> Option<Seq<char>>;

/// `id_to_token` of `tokenizers`, asked of the tokenizer's model: what it gives has a name.
#[verifier::external_body]
pub(crate) fn model_token(t: &tokenizers::Tokenizer, id: u32) -> (token: Option<String>)
    ensures
        match token {
            Some(s) => model_token_of(*t, id) == Some(s@),
            None => model_token_of(*t, id) is None,
        },
{
    tokenizers::Model::id_to_token(t.get_model(), id)
}

/// `to_string` of `tokenizers`, without line breaks: what it writes has a name. It counts one past
/// the largest id of the model's vocabulary, so the model must have no token with the largest
/// `u32` as its id; an added token may. Where ids are left out it also prints a warning, of which
/// nothing is stated.
#[verifier::external_body]
pub(crate) fn serialize(t: &tokenizers::Tokenizer) -> (s: Option<String>)
    requires
        model_token_of(*t, u32::MAX) is None,
    ensures
        match s {
            Some(written) => serialized(*t) == Some(written@),
            None => serialized(*t) is None,
        },
{
    t.to_string(false).ok()
}

/// The model that a text describes, where it is a `tokenizer.json` of the pipeline.
pub open spec fn read_text(s: Seq<char>) -> Option<model::Model> {
    match json::parsed_json(s) {
        Some(t) => match config::read(t) {
            Ok(m) => Some(m),
            Err(_) => None,
        },
        None => None,
    }
}

/// The model of a tokenizer of `tokenizers`, where it is one of the pipeline. One whose vocabulary
/// uses the largest `u32` as an id cannot be written down, and has none.
pub open spec fn read_tokenizer(t: tokenizers::Tokenizer) -> Option<model::Model> {
    if model_token_of(t, u32::MAX) is Some {
        None
    } else {
        match serialized(t) {
            Some(s) => read_text(s),
            None => None,
        }
    }
}

// --- Laws --------------------------------------------------------------------
/// A text gives a model exactly if it is JSON that is accepted, and then the one that is read from
/// it.
pub proof fn lemma_text_is_read(s: Seq<char>, m: model::Model)
    ensures
        read_text(s) == Some(m) <==> (json::parsed_json(s) matches Some(t) && config::read(t) == Ok::<
            model::Model,
            config::ConfigError,
        >(m)),
{
}

/// A tokenizer gives a model exactly if what it writes is JSON that is accepted, and then the one
/// that is read from it; it can write itself down only where the largest `u32` is not in its
/// vocabulary.
pub proof fn lemma_tokenizer_is_read(t: tokenizers::Tokenizer, m: model::Model)
    ensures
        read_tokenizer(t) == Some(m) <==> model_token_of(t, u32::MAX) is None && (serialized(
            t,
        ) matches Some(s) && json::parsed_json(s) matches Some(tree) && config::read(tree) == Ok::<
            model::Model,
            config::ConfigError,
        >(m)),
{
}

} // verus!
