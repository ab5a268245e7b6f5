//! JSON objects of string fields, encoded and decoded by `serde_json`.
//!
//! The two functions of `serde_json` that the store relies on are given
//! names here, and the contracts of the wrappers say what the store
//! assumes of them. Nothing in this module is proved.

use crate::order::str_lt;
use std::collections::BTreeMap;
use vstd::prelude::*;

verus! {

/// The fields of a JSON object, as pairs of name and value.
pub type Fields = Seq<(Seq<char>, Seq<char>)>;

/// What the decoder finds at the front of some bytes.
pub enum Decoded {
    /// Nothing but blank bytes up to the end of the input.
    End,
    /// Bytes that do not begin with an object of string fields.
    Malformed,
    /// An object, and the number of bytes read to decode it.
    Object { fields: Fields, consumed: nat },
}

/// The bytes that `serde_json::to_vec` writes for a map with these entries.
pub uninterp spec fn object_text(fields: Seq<(Seq<char>, Seq<char>)>) -> Seq<u8>;

/// What a `serde_json` stream decoder yields first on these bytes.
pub uninterp spec fn first_object(bytes: Seq<u8>) -> Decoded;

/// The pairs of a vector of fields, each string taken by its view.
pub open spec fn fields_view(fields: Seq<(String, String)>) -> Fields {
    fields.map_values(|f: (String, String)| (f.0@, f.1@))
}

/// `text` decodes to an object with `fields`, read in full, whatever bytes
/// follow it.
pub open spec fn decodes_as(text: Seq<u8>, fields: Fields) -> bool {
    forall|rest: Seq<u8>| #[trigger]
        first_object(text + rest) == (Decoded::Object { fields, consumed: text.len() })
}

/// The names of `fields` come in strictly increasing order.
pub open spec fn names_increase(fields: Fields) -> bool {
    forall|i: int, j: int|
        0 <= i < j < fields.len() ==> str_lt(#[trigger] fields[i].0, #[trigger] fields[j].0)
}

/// Encodes an object of string fields with `serde_json::to_vec`.
///
/// Assumed of `serde_json`: the call succeeds, since neither of the two
/// causes of failure that it documents can arise for a map from strings to
/// strings; a map whose entries are given in increasing order of name is
/// written in that order; and the bytes written decode to the same fields,
/// read in full, whatever follows them.
#[verifier::external_body]
pub(crate) fn encode_object(fields: &Vec<(String, String)>) -> (r: Result<
    Vec<u8>,
    serde_json::Error,
>)
    requires
        names_increase(fields_view(fields@)),
    ensures
        r is Ok,
        r matches Ok(text) ==> text@ == object_text(fields_view(fields@)),
        r matches Ok(text) ==> text@.len() > 0,
        r matches Ok(text) ==> decodes_as(text@, fields_view(fields@)),
{
    let map: BTreeMap<&str, &str> = fields.iter().map(|f| (f.0.as_str(), f.1.as_str())).collect();
    serde_json::to_vec(&map)
}

/// Decodes the first object of a stream with `serde_json`'s
/// `StreamDeserializer`, and reports its `byte_offset`.
///
/// Assumed of `serde_json`: the outcome is a function of the bytes; an
/// object takes at least one byte and no more than there are; and the
/// decoder reads nothing past the object's last byte, so the bytes read
/// decode to the same fields whatever follows them.
#[verifier::external_body]
pub(crate) fn decode_object(bytes: &[u8]) -> (r: Option<
    Result<(Vec<(String, String)>, usize), serde_json::Error>,
>)
    ensures
        r is None <==> first_object(bytes@) == Decoded::End,
        r matches Some(Err(_)) <==> first_object(bytes@) == Decoded::Malformed,
        r matches Some(Ok(found)) ==> first_object(bytes@) == (Decoded::Object {
            fields: fields_view(found.0@),
            consumed: found.1 as nat,
        }),
        r matches Some(Ok(found)) ==> 0 < found.1 <= bytes@.len(),
        r matches Some(Ok(found)) ==> decodes_as(
            bytes@.subrange(0, found.1 as int),
            fields_view(found.0@),
        ),
{
    let mut stream = serde_json::Deserializer::from_slice(bytes).into_iter::<
        BTreeMap<String, String>,
    >();
    match stream.next() {
        None => None,
        Some(Err(e)) => Some(Err(e)),
        Some(Ok(map)) => Some(Ok((map.into_iter().collect(), stream.byte_offset()))),
    }
}

/// Builds the error that `serde` reports for an object that lacks a field,
/// with `serde::de::Error::missing_field`.
#[verifier::external_body]
pub(crate) fn missing_field(name: &'static str) -> serde_json::Error {
    <serde_json::Error as serde::de::Error>::missing_field(name)
}

} // verus!
