//! Canonical JSON text: decoded bytes are interpreted as UTF-8 and
//! re-serialized by a JSON parser, so that downstream comparisons are
//! whitespace-insensitive.

use vstd::prelude::*;
use vstd::utf8::encode_utf8;
use vstd::utf8::is_leading_byte_width_1;
use vstd::utf8::partial_valid_utf8;
use vstd::utf8::partial_valid_utf8_extend_ascii_block;
use vstd::utf8::valid_utf8;

use crate::errors::JsonFault;

verus! {

/// What parsing a UTF-8 JSON text and re-serializing it yields: the
/// canonical bytes, or nothing when the text is not valid JSON.
pub uninterp spec fn json_canon(b: Seq<u8>) -> Option<Seq<u8>>;

/// A byte sequence that is valid UTF-8 and its own canonical JSON form.
pub open spec fn is_canonical_json(b: Seq<u8>) -> bool {
    valid_utf8(b) && json_canon(b) == Some(b)
}

/// Interpret bytes as UTF-8 JSON text and re-serialize the parsed value.
///
/// Relies on core::str::from_utf8, which accepts exactly valid UTF-8 and
/// keeps the bytes; on serde_json::from_str::<serde_json::Value>, which
/// accepts exactly valid JSON text; and on serde_json::Value::to_string,
/// whose output is a function of the parsed value alone, is itself valid
/// JSON, and parses back to the same value, so re-serializing it returns
/// the same text.
#[verifier::external_body]
pub(crate) fn canon_from_bytes(b: &[u8]) -> (r: Result<String, JsonFault>)
    ensures
        (r matches Err(e) && e == JsonFault::NotUtf8) <==> !valid_utf8(b@),
        valid_utf8(b@) ==> ((r matches Err(e) && e == JsonFault::NotJson) <==> json_canon(b@)
            is None),
        r matches Ok(s) ==> json_canon(b@) == Some(encode_utf8(s@)) && is_canonical_json(
            encode_utf8(s@),
        ),
{
    match core::str::from_utf8(b) {
        Err(_) => Err(JsonFault::NotUtf8),
        Ok(text) => match serde_json::from_str::<serde_json::Value>(text) {
            Err(_) => Err(JsonFault::NotJson),
            Ok(value) => Ok(value.to_string()),
        },
    }
}

/// Relies on String::from_utf8, which succeeds on valid UTF-8 and keeps
/// the bytes.
#[verifier::external_body]
pub(crate) fn bytes_into_string(v: Vec<u8>) -> (r: String)
    requires
        valid_utf8(v@),
    ensures
        encode_utf8(r@) == v@,
{
    String::from_utf8(v).unwrap()
}

/// Bytes that all stay below 128 are valid UTF-8.
pub proof fn lemma_ascii_bytes_valid_utf8(b: Seq<u8>)
    requires
        forall|i: int| 0 <= i < b.len() ==> b[i] < 128,
    ensures
        valid_utf8(b),
{
    assert(b.subrange(0, 0) =~= Seq::<u8>::empty());
    assert(partial_valid_utf8(b, 0));
    assert(forall|i: int| 0 <= i < b.len() ==> #[trigger] is_leading_byte_width_1(b[i]));
    partial_valid_utf8_extend_ascii_block(b, 0, b.len() as int);
    assert(b.subrange(0, b.len() as int) =~= b);
}

} // verus!
