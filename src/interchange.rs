use vstd::prelude::*;
use json::JsonValue;
use json::JsonValue::{Array, Boolean, Null, Number, Object};
use crate::record::{Element, Stored, JsonType, Error};
use crate::record::Element::Int;
use crate::record::Stored::Records;
use crate::store::{decode_store, decode_store_spec, encode_store_spec, encoded_view, entries_view, StoredView};
use crate::tracker::{Tracker, Usage};

verus! {

#[verifier::external_type_specification]
#[verifier::external_body]
pub struct ExJsonError(json::JsonError);

/// What the text of a store's file holds as JSON: `None` for text that is not
/// JSON; the kind of the top-level value when it is not an object; else each
/// key, in order, with its value as the decoder reads it.
pub uninterp spec fn read_store_text(text: Seq<char>) -> Option<Result<Seq<(Seq<char>, StoredView)>, JsonType>>;

/// The text of an encoded store as a JSON object, indented by four spaces.
pub uninterp spec fn store_text(e: Seq<(Seq<char>, Seq<Seq<u64>>)>) -> Seq<char>;

/// Relies on `json::parse`, and on `JsonValue`'s variants, `members` and
/// `as_u64` to hand the parsed value out as plain values: the result depends
/// on the text alone.
#[verifier::external_body]
fn read_store(text: &str) -> (r: Result<Result<Vec<(String, Stored)>, JsonType>, json::JsonError>)
    ensures
        match r {
            Err(_) => read_store_text(text@) is None,
            Ok(Err(k)) => read_store_text(text@) == Some(Err::<Seq<(Seq<char>, StoredView)>, JsonType>(k)),
            Ok(Ok(v)) => read_store_text(text@) == Some(Ok::<Seq<(Seq<char>, StoredView)>, JsonType>(entries_view(v@))),
        },
{
    let kind = |v: &JsonValue| match v {
        Null => JsonType::Null, Boolean(_) => JsonType::Boolean, Number(_) => JsonType::Number,
        Object(_) => JsonType::Object, Array(_) => JsonType::Array, _ => JsonType::String
    };
    match json::parse(text)? {
        Object(o) => Ok(Ok(o.iter().map(|(k, v)| (k.to_string(), match v {
            Array(rs) => Records(rs.iter().map(|r| r.members().map(
                |m| m.as_u64().map_or(Element::Other(kind(m)), Int)).collect()).collect()),
            _ => Stored::Other(kind(v))
        })).collect())),
        j => Ok(Err(kind(&j)))
    }
}

/// Relies on `json::JsonError`'s `Display`: the parser's message.
#[verifier::external_body]
fn error_text(e: &json::JsonError) -> (r: String) {
    e.to_string()
}

/// Relies on `JsonValue: From<Vec<Vec<u64>>>`, `json::object::Object:
/// FromIterator` and `JsonValue::pretty(4)`: the result depends on the encoded
/// store alone.
#[verifier::external_body]
fn write_store(e: &Vec<(String, Vec<Vec<u64>>)>) -> (r: String)
    ensures
        r@ == store_text(encoded_view(e@)),
{
    let o: json::object::Object = e.iter().map(|(k, rs)| (k.as_str(), JsonValue::from(rs.clone()))).collect();
    JsonValue::Object(o).pretty(4)
}

impl Tracker {
    /// Reads a store from the text of its file: a JSON object from identity to
    /// its array of records. Fails on text that is not JSON, on a top level
    /// that is not an object, and on the first value that does not decode.
    pub fn from_text(text: &str) -> (r: Result<Tracker, Error>)
        ensures
            match read_store_text(text@) {
                None => r matches Err(Error::InvalidJson(_)),
                Some(Err(k)) => r == Err::<Tracker, Error>(Error::JsonTypeError { expected: JsonType::Object, got: k }),
                Some(Ok(es)) => match r {
                    Ok(t) => t.wf() && decode_store_spec(es) == Ok::<Seq<Usage>, Error>(t@),
                    Err(e) => decode_store_spec(es) == Err::<Seq<Usage>, Error>(e),
                },
            },
    {
        match read_store(text) {
            Ok(Ok(parts)) => decode_store(parts),
            Ok(Err(k)) => Err(Error::JsonTypeError { expected: JsonType::Object, got: k }),
            Err(e) => Err(Error::InvalidJson(error_text(&e))),
        }
    }

    /// The text of the store's file: a JSON object from identity to its array
    /// of encoded records, in store order, indented by four spaces.
    pub fn to_text(&self) -> (r: String)
        ensures
            r@ == store_text(encode_store_spec(self@)),
    {
        let enc = self.encode();
        write_store(&enc)
    }
}

} // verus!
