//! JSON values as `serde_json` holds them, and how the library reads them.
use vstd::prelude::*;

verus! {

/// What a JSON value holds.
///
/// A number is known by what `as_u64` of `serde_json` makes of it: `None` for one that is negative,
/// too large, or written with a fraction or an exponent.
pub enum JsonTree {
    Null,
    Bool(bool),
    Number(Option<u64>),
    Text(Seq<char>),
    Array(Seq<JsonTree>),
    Object(Map<Seq<char>, JsonTree>),
}

/// The member `key` of an object.
pub open spec fn member(t: JsonTree, key: Seq<char>) -> Option<JsonTree> {
    match t {
        JsonTree::Object(m) => if m.contains_key(key) {
            Some(m[key])
        } else {
            None
        },
        _ => None,
    }
}

pub open spec fn text_of(t: Option<JsonTree>) -> Option<Seq<char>> {
    match t {
        Some(JsonTree::Text(s)) => Some(s),
        _ => None,
    }
}

pub open spec fn bool_of(t: Option<JsonTree>) -> Option<bool> {
    match t {
        Some(JsonTree::Bool(b)) => Some(b),
        _ => None,
    }
}

pub open spec fn number_of(t: Option<JsonTree>) -> Option<u64> {
    match t {
        Some(JsonTree::Number(n)) => n,
        _ => None,
    }
}

pub open spec fn array_of(t: Option<JsonTree>) -> Option<Seq<JsonTree>> {
    match t {
        Some(JsonTree::Array(a)) => Some(a),
        _ => None,
    }
}

/// An integer that fits an id.
pub open spec fn is_id(t: JsonTree) -> bool {
    match t {
        JsonTree::Number(Some(n)) => n <= u32::MAX,
        _ => false,
    }
}

/// The id that a number stands for.
pub open spec fn id_of(t: JsonTree) -> u32 {
    match t {
        JsonTree::Number(Some(n)) => n as u32,
        _ => 0,
    }
}

/// An object whose members are all ids.
pub open spec fn is_id_map(t: JsonTree) -> bool {
    match t {
        JsonTree::Object(m) => forall|k: Seq<char>| #[trigger] m.contains_key(k) ==> is_id(m[k]),
        _ => false,
    }
}

/// The ids that an object holds.
pub open spec fn id_map_of(t: JsonTree) -> Map<Seq<char>, u32> {
    match t {
        JsonTree::Object(m) => m.map_values(|v: JsonTree| id_of(v)),
        _ => Map::empty(),
    }
}

/// `entries` are the members of `map`, in any order.
pub open spec fn lists(entries: Seq<(String, u32)>, map: Map<Seq<char>, u32>) -> bool {
    &&& forall|i: int|
        #![trigger entries[i]]
        0 <= i < entries.len() ==> map.contains_key(entries[i].0@) && map[entries[i].0@]
            == entries[i].1
    &&& forall|k: Seq<char>| #[trigger]
        map.contains_key(k) ==> exists|i: int|
            0 <= i < entries.len() && #[trigger] entries[i].0@ == k
}

#[verifier::external_type_specification]
#[verifier::external_body]
pub struct ExValue(serde_json::Value);

#[verifier::external_type_specification]
#[verifier::external_body]
pub struct ExError(serde_json::Error);

/// What a value of `serde_json` holds.
pub uninterp spec fn json_tree(v: serde_json::Value) -> JsonTree;

/// What `serde_json` reads from a text; `None` if it finds an error.
pub uninterp spec fn parsed_json(s: Seq<char>) -> Option<JsonTree>;

/// `Value::get` of `serde_json` with a string: the member of that name, where the value is an
/// object that has one.
#[verifier::external_body]
pub(crate) fn get<'a>(v: &'a serde_json::Value, key: &str) -> (found: Option<&'a serde_json::Value>)
    ensures
        match found {
            Some(m) => member(json_tree(*v), key@) == Some(json_tree(*m)),
            None => member(json_tree(*v), key@) is None,
        },
{
    v.get(key)
}

/// `Value::as_str` of `serde_json`: the text, where the value is a string.
pub assume_specification[ serde_json::Value::as_str ](v: &serde_json::Value) -> (s: Option<&str>)
    ensures
        match s {
            Some(t) => json_tree(*v) == JsonTree::Text(t@),
            None => !(json_tree(*v) is Text),
        },
;

/// `Value::as_bool` of `serde_json`: the truth value, where the value is one.
pub assume_specification[ serde_json::Value::as_bool ](v: &serde_json::Value) -> (b: Option<bool>)
    ensures
        match b {
            Some(yes) => json_tree(*v) == JsonTree::Bool(yes),
            None => !(json_tree(*v) is Bool),
        },
;

/// `Value::as_u64` of `serde_json`: the integer, where the value is a number that is one.
pub assume_specification[ serde_json::Value::as_u64 ](v: &serde_json::Value) -> (n: Option<u64>)
    ensures
        n == number_of(Some(json_tree(*v))),
;

/// `Value::as_array` of `serde_json`: the elements, where the value is an array.
pub assume_specification[ serde_json::Value::as_array ](v: &serde_json::Value) -> (a: Option<
    &Vec<serde_json::Value>,
>)
    ensures
        match a {
            Some(list) => json_tree(*v) == JsonTree::Array(
                list@.map_values(|e: serde_json::Value| json_tree(e)),
            ),
            None => !(json_tree(*v) is Array),
        },
;

/// `from_value` of `serde_json` into a map from strings to `u32`, its entries in a vector: an
/// object all of whose members are integers that fit gives those, and any other value is an error.
#[verifier::external_body]
pub(crate) fn id_entries(v: &serde_json::Value) -> (entries: Result<
    Vec<(String, u32)>,
    serde_json::Error,
>)
    ensures
        match entries {
            Ok(list) => is_id_map(json_tree(*v)) && lists(list@, id_map_of(json_tree(*v))),
            Err(_) => !is_id_map(json_tree(*v)),
        },
{
    let map: std::collections::HashMap<String, u32> = serde_json::from_value(v.clone())?;
    Ok(map.into_iter().collect())
}

/// `from_str` of `serde_json`: what it reads from the text has a name.
#[verifier::external_body]
pub(crate) fn parse(s: &str) -> (v: Result<serde_json::Value, serde_json::Error>)
    ensures
        match v {
            Ok(value) => parsed_json(s@) == Some(json_tree(value)),
            Err(_) => parsed_json(s@) is None,
        },
{
    serde_json::from_str(s)
}

/// The member `key` of `v`, where it is a string.
pub(crate) fn get_str<'a>(v: &'a serde_json::Value, key: &str) -> (found: Option<&'a str>)
    ensures
        match found {
            Some(s) => text_of(member(json_tree(*v), key@)) == Some(s@),
            None => text_of(member(json_tree(*v), key@)) is None,
        },
{
    match get(v, key) {
        Some(m) => m.as_str(),
        None => None,
    }
}

/// The member `key` of `v`, where it is a truth value, or else `default`.
pub(crate) fn get_bool_or(v: &serde_json::Value, key: &str, default: bool) -> (yes: bool)
    ensures
        yes == (match bool_of(member(json_tree(*v), key@)) {
            Some(b) => b,
            None => default,
        }),
{
    match get(v, key) {
        Some(m) => match m.as_bool() {
            Some(b) => b,
            None => default,
        },
        None => default,
    }
}

/// The member `key` of `v`, where it is an integer.
pub(crate) fn get_u64(v: &serde_json::Value, key: &str) -> (found: Option<u64>)
    ensures
        found == number_of(member(json_tree(*v), key@)),
{
    match get(v, key) {
        Some(m) => m.as_u64(),
        None => None,
    }
}

// --- Laws --------------------------------------------------------------------
/// Only an object has members, and it has those that it holds.
pub proof fn lemma_members(t: JsonTree, key: Seq<char>)
    ensures
        t matches JsonTree::Object(m) ==> (m.contains_key(key) ==> member(t, key) == Some(m[key]))
            && (!m.contains_key(key) ==> member(t, key) is None),
        !(t is Object) ==> member(t, key) is None,
{
}

/// A value is read as what it is, and as nothing else.
pub proof fn lemma_values(t: JsonTree)
    ensures
        text_of(Some(t)) == (match t {
            JsonTree::Text(s) => Some(s),
            _ => None,
        }),
        bool_of(Some(t)) == (match t {
            JsonTree::Bool(b) => Some(b),
            _ => None,
        }),
        number_of(Some(t)) == (match t {
            JsonTree::Number(Some(n)) => Some(n),
            _ => None,
        }),
        array_of(Some(t)) == (match t {
            JsonTree::Array(a) => Some(a),
            _ => None,
        }),
        text_of(None) is None,
        bool_of(None) is None,
        number_of(None) is None,
        array_of(None) is None,
{
}

/// A map of ids is an object whose members are all integers below 2^32, and it gives each member
/// its integer.
pub proof fn lemma_id_maps(t: JsonTree)
    ensures
        is_id_map(t) <==> (t matches JsonTree::Object(m) && forall|k: Seq<char>| #[trigger]
            m.contains_key(k) ==> (m[k] matches JsonTree::Number(Some(n)) && n < 0x1_0000_0000)),
        is_id_map(t) ==> (t matches JsonTree::Object(m) && id_map_of(t).dom() == m.dom() && forall|
            k: Seq<char>,
        | #[trigger]
            m.contains_key(k) ==> m[k] == JsonTree::Number(Some(id_map_of(t)[k] as u64))),
{
    if let JsonTree::Object(m) = t {
        if is_id_map(t) {
            assert(id_map_of(t).dom() =~= m.dom());
            assert forall|k: Seq<char>| #[trigger] m.contains_key(k) implies m[k]
                == JsonTree::Number(Some(id_map_of(t)[k] as u64)) by {
                assert(is_id(m[k]));
            }
        } else if forall|k: Seq<char>| #[trigger]
            m.contains_key(k) ==> (m[k] matches JsonTree::Number(Some(n)) && n < 0x1_0000_0000) {
            assert forall|k: Seq<char>| #[trigger] m.contains_key(k) implies is_id(m[k]) by {}
        }
    }
}

} // verus!
