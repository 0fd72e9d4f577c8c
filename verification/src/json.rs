//! Reading the JSON object a chat model answers with: the object's text
//! inside the reply, and the array it holds under one key.

use vstd::prelude::*;
use crate::text::{chars_of, rfind_upto, find, find_exec, rfind, rfind_exec, lemma_find_bounds, lemma_rfind_bounds, string_of, subvec};

verus! {

/// One element of a JSON array, as the logic reads it: its text when it is
/// a string, its value when it is a whole number that fits a `u64`.
#[derive(Debug, Clone)]
pub struct JsonItem {
    pub text: Option<String>,
    pub number: Option<u64>,
}

pub type JsonItemModel = (Option<Seq<char>>, Option<u64>);

pub open spec fn json_item_model(x: JsonItem) -> JsonItemModel {
    (
        match x.text {
            Some(t) => Some(t@),
            None => None,
        },
        x.number,
    )
}

pub open spec fn json_items_model(v: Seq<JsonItem>) -> Seq<JsonItemModel> {
    v.map_values(|x: JsonItem| json_item_model(x))
}

/// What parsing gave: the parser's message when the text is not JSON;
/// `None` when the value is not an object holding an array under the key;
/// else the array's elements.
pub type JsonArrayModel = Result<Option<Seq<JsonItemModel>>, Seq<char>>;

pub open spec fn json_array_model(r: Result<Option<Vec<JsonItem>>, String>) -> JsonArrayModel {
    match r {
        Err(e) => Err(e@),
        Ok(None) => Ok(None),
        Ok(Some(v)) => Ok(Some(json_items_model(v@))),
    }
}

/// What `serde_json::from_str::<serde_json::Value>` makes of `text`, read
/// at `key` (see `json_array_model`).
pub uninterp spec fn json_array_at(text: Seq<char>, key: Seq<char>) -> JsonArrayModel;

/// Parses `text` with `serde_json::from_str::<serde_json::Value>` and reads
/// the array under `key` of the top-level object, each element as a string
/// (`Value::as_str`) and as a whole number (`Value::as_u64`); a parse error
/// gives the error's message. The contract only names the result: the JSON
/// grammar is serde_json's.
#[verifier::external_body]
fn parse_json_array(text: &str, key: &str) -> (r: Result<Option<Vec<JsonItem>>, String>)
    ensures
        json_array_model(r) == json_array_at(text@, key@),
{
    match serde_json::from_str::<serde_json::Value>(text) {
        Err(e) => Err(e.to_string()),
        Ok(v) => Ok(v.get(key).and_then(|a| a.as_array()).map(|a| {
            a.iter().map(|x| JsonItem { text: x.as_str().map(|s| s.to_string()), number: x.as_u64() }).collect()
        })),
    }
}

/// Models often wrap the JSON object in prose or a code fence: the text from
/// the first `{` to the last `}`, or the whole reply when either is missing.
pub open spec fn json_object_text_spec(out: Seq<char>) -> Seq<char> {
    match (find(out, "{"@), rfind(out, "}"@)) {
        (Some(s), Some(e)) => out.subrange(s, e + 1),
        _ => out,
    }
}

/// A reply whose last `}` stands before its first `{` with text between
/// them, the one shape that cannot be cut.
pub open spec fn braces_reversed(out: Seq<char>) -> bool {
    match (find(out, "{"@), rfind(out, "}"@)) {
        (Some(s), Some(e)) => e + 1 < s,
        _ => false,
    }
}

/// Whether a reply can be cut as `json_object_text_spec` says: not when
/// its last `}` stands before its first `{` with text between them.
pub fn can_cut_json(out: &str) -> (r: bool)
    ensures
        r == !braces_reversed(out@),
{
    let v = chars_of(out);
    let open = chars_of("{");
    let close = chars_of("}");
    match (find_exec(&v, &open), rfind_exec(&v, &close)) {
        (Some(s), Some(e)) => !(e < s && s - e > 1),
        _ => true,
    }
}

/// Cuts the JSON object out of a reply: see `json_object_text_spec`.
pub fn json_object_text(out: &str) -> (r: String)
    requires
        !braces_reversed(out@),
    ensures
        r@ == json_object_text_spec(out@),
{
    let v = chars_of(out);
    let open = chars_of("{");
    let close = chars_of("}");
    proof {
        reveal_strlit("{");
        reveal_strlit("}");
        lemma_find_bounds(v@, "{"@, 0);
        lemma_rfind_bounds(v@, "}"@, v@.len() - "}"@.len());
    }
    match find_exec(&v, &open) {
        Some(s) => match rfind_exec(&v, &close) {
            Some(e) => {
                assert(rfind(v@, "}"@) == rfind_upto(v@, "}"@, v@.len() - "}"@.len()));
                assert(e + 1 <= v.len());
                let piece = subvec(&v, s, e + 1);
                string_of(piece.as_slice())
            },
            None => string_of(v.as_slice()),
        },
        None => string_of(v.as_slice()),
    }
}

/// The array under `key` in a model's reply: the object is cut out of the
/// reply as `json_object_text_spec` says and read with serde_json.
pub fn reply_array(out: &str, key: &str) -> (r: Result<Option<Vec<JsonItem>>, String>)
    requires
        !braces_reversed(out@),
    ensures
        json_array_model(r) == json_array_at(json_object_text_spec(out@), key@),
{
    let obj = json_object_text(out);
    parse_json_array(obj.as_str(), key)
}

} // verus!
