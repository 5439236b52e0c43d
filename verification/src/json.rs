//! A plain JSON value tree and the trusted bridge that fills it: the
//! document bytes are parsed by serde_json, and the parsed tree is carried
//! over node by node into `Json`, which the verified decoder reads.

use vstd::prelude::*;

verus! {

/// A JSON value as the decoder sees it. Strings and object keys are held as
/// their UTF-8 bytes; a number is held as its `u64` value, or `None` when it
/// is not a non-negative integer that fits in a `u64`.
pub enum Json {
    Null,
    Bool(bool),
    Num(Option<u64>),
    Str(Vec<u8>),
    Arr(Vec<Json>),
    Obj(Vec<(Vec<u8>, Json)>),
}

/// The JSON tree that a byte string parses to, or `None` when the bytes are
/// not syntactically valid JSON. Parsing depends on the bytes alone; this
/// names its result, which `json_from_slice` computes.
pub uninterp spec fn json_of(s: Seq<u8>) -> Option<Json>;

#[verifier::external_type_specification]
#[verifier::external_body]
pub struct ExJsonValue(serde_json::Value);

/// Relies on serde_json::from_slice::<serde_json::Value>: it parses exactly
/// the syntactically valid JSON documents, and the tree it returns is a
/// function of the input bytes alone. The tree is carried over by
/// `json_tree`.
#[verifier::external_body]
pub(crate) fn json_from_slice(bytes: &[u8]) -> (r: Option<Json>)
    ensures
        r == json_of(bytes@),
{
    serde_json::from_slice::<serde_json::Value>(bytes).ok().map(json_tree)
}

/// Relies on the public shape of serde_json::Value: each variant is carried
/// over one for one, strings by their UTF-8 bytes via String::into_bytes,
/// numbers by serde_json::Number::as_u64, and object entries in the order
/// serde_json::Map::into_iter yields them.
#[verifier::external_body]
fn json_tree(v: serde_json::Value) -> Json {
    match v {
        serde_json::Value::Null => Json::Null,
        serde_json::Value::Bool(b) => Json::Bool(b),
        serde_json::Value::Number(n) => Json::Num(n.as_u64()),
        serde_json::Value::String(s) => Json::Str(s.into_bytes()),
        serde_json::Value::Array(a) => Json::Arr(a.into_iter().map(json_tree).collect()),
        serde_json::Value::Object(m) => Json::Obj(
            m.into_iter().map(|(k, w)| (k.into_bytes(), json_tree(w))).collect(),
        ),
    }
}

} // verus!
