//! Token assembly and verification.
//!
//! A token is `header_b64 + "." + payload_b64 + "." + signature_b64`.  The
//! signature is the per-byte transform of the signing input
//! `header_b64 + "." + payload_b64` under the signing key; verification
//! recovers the signing input with the verifying key and compares it
//! byte-wise against the first two segments.

use vstd::prelude::*;
use vstd::string::StringSliceAdditionalSpecFns;
use vstd::utf8::encode_utf8;
use vstd::utf8::encode_utf8_valid_utf8;
use vstd::utf8::valid_utf8;

use crate::codec::b64_encode;
use crate::codec::decode_bytes;
use crate::codec::encode_base64url;
use crate::codec::lemma_b64_encode_alphabet;
use crate::codec::spec_decode;
use crate::errors::JsonFault;
use crate::errors::TokenError;
use crate::jsoncanon::bytes_into_string;
use crate::jsoncanon::canon_from_bytes;
use crate::jsoncanon::is_canonical_json;
use crate::jsoncanon::json_canon;
use crate::jsoncanon::lemma_ascii_bytes_valid_utf8;
use crate::rsa::inverse_keys;
use crate::rsa::lemma_transform_roundtrip;
use crate::rsa::transform;
use crate::rsa::transform_spec;
use crate::rsa::KeyPair;
use crate::split::find_byte;
use crate::split::lemma_split_on_len;
use crate::split::lemma_split_on_none;
use crate::split::lemma_split_on_sep;
use crate::split::split_on;

verus! {

/// The fixed header record, as compact JSON bytes: constant for every
/// token, not negotiable per call.
pub open spec fn header_json() -> Seq<u8> {
    encode_utf8("{\"alg\":\"HS256\",\"typ\":\"JWT\"}"@)
}

/// The signing input: the two encoded segments joined by a dot.
pub open spec fn signing_input(hb64: Seq<u8>, pb64: Seq<u8>) -> Seq<u8> {
    hb64 + seq![46u8] + pb64
}

/// The token wire bytes built from canonical header bytes, canonical
/// payload bytes, and the signing key.
pub open spec fn token_of(hc: Seq<u8>, pc: Seq<u8>, k: KeyPair) -> Seq<u8> {
    let si = signing_input(b64_encode(hc), b64_encode(pc));
    si + seq![46u8] + b64_encode(transform_spec(si, k))
}

/// What issuing yields for a payload text (given as UTF-8 bytes) and a
/// signing key: the token, or `SerializationError` when the payload (or,
/// vacuously, the fixed header) has no JSON serialization.
pub open spec fn spec_issue(p: Seq<u8>, k: KeyPair) -> Result<Seq<u8>, TokenError> {
    if !valid_utf8(p) || json_canon(p) is None || json_canon(header_json()) is None {
        Err(TokenError::SerializationError)
    } else {
        Ok(token_of(json_canon(header_json())->0, json_canon(p)->0, k))
    }
}

/// The JSON-bearing decode path: base64url decode, then UTF-8, then
/// canonical JSON, each stage with its own error.
pub open spec fn spec_decode_json(s: Seq<u8>) -> Result<Seq<u8>, TokenError> {
    match spec_decode(s) {
        Err(e) => Err(e),
        Ok(raw) => if !valid_utf8(raw) {
            Err(TokenError::InvalidEncoding)
        } else {
            match json_canon(raw) {
                None => Err(TokenError::InvalidJson),
                Some(c) => Ok(c),
            }
        },
    }
}

/// What verification yields on token wire bytes: the canonical payload of
/// a well-formed, correctly signed token, or the error of the first stage
/// that rejects it.
pub open spec fn spec_verify(t: Seq<u8>, k: KeyPair) -> Result<Seq<u8>, TokenError> {
    let segs = split_on(t, 46);
    if segs.len() != 3 {
        Err(TokenError::MalformedToken)
    } else {
        match spec_decode_json(segs[0]) {
            Err(e) => Err(e),
            Ok(_hc) => match spec_decode_json(segs[1]) {
                Err(e) => Err(e),
                Ok(pc) => match spec_decode(segs[2]) {
                    Err(e) => Err(e),
                    Ok(sig) => if transform_spec(sig, k) != signing_input(segs[0], segs[1]) {
                        Err(TokenError::SignatureInvalid)
                    } else {
                        Ok(pc)
                    },
                },
            },
        }
    }
}

/// Decode one segment through the JSON-bearing variant, returning the
/// canonicalized text.
fn decode_json_segment(seg: &[u8]) -> (r: Result<String, TokenError>)
    ensures
        r matches Ok(s) ==> spec_decode_json(seg@) == Ok::<Seq<u8>, TokenError>(encode_utf8(s@))
            && is_canonical_json(encode_utf8(s@)),
        r matches Err(e) ==> spec_decode_json(seg@) == Err::<Seq<u8>, TokenError>(e),
{
    let raw = match decode_bytes(seg) {
        Ok(v) => v,
        Err(e) => {
            return Err(e);
        },
    };
    match canon_from_bytes(raw.as_slice()) {
        Ok(s) => Ok(s),
        Err(JsonFault::NotUtf8) => Err(TokenError::InvalidEncoding),
        Err(JsonFault::NotJson) => Err(TokenError::InvalidJson),
    }
}

/// Decode a base64url text and interpret it as JSON, returning the
/// canonicalized (re-serialized) text.
pub fn decodificar_json_base64(base64_str: &str) -> (r: Result<String, TokenError>)
    ensures
        r matches Ok(s) ==> spec_decode_json(base64_str.spec_bytes()) == Ok::<
            Seq<u8>,
            TokenError,
        >(encode_utf8(s@)),
        r matches Err(e) ==> spec_decode_json(base64_str.spec_bytes()) == Err::<
            Seq<u8>,
            TokenError,
        >(e),
{
    decode_json_segment(base64_str.as_bytes())
}

/// Byte-wise equality of two slices.
fn bytes_eq(a: &[u8], b: &[u8]) -> (r: bool)
    ensures
        r == (a@ == b@),
{
    if a.len() != b.len() {
        return false;
    }
    let mut i: usize = 0;
    while i < a.len()
        invariant
            0 <= i <= a@.len(),
            a@.len() == b@.len(),
            forall|k: int| 0 <= k < i ==> a@[k] == b@[k],
        decreases a@.len() - i,
    {
        if a[i] != b[i] {
            return false;
        }
        i = i + 1;
    }
    proof {
        assert(a@ =~= b@);
    }
    true
}

/// Issue a token: encode the fixed header and the canonical payload,
/// transform the signing input with the signing key, and join the three
/// segments with dots.
pub fn generate_jwt(payload: &str, key: &KeyPair) -> (r: Result<String, TokenError>)
    requires
        key.wf(),
    ensures
        r matches Ok(t) ==> spec_issue(payload.spec_bytes(), *key) == Ok::<
            Seq<u8>,
            TokenError,
        >(encode_utf8(t@)),
        r matches Err(e) ==> spec_issue(payload.spec_bytes(), *key) == Err::<Seq<u8>, TokenError>(
            e,
        ),
{
    let pc = match canon_from_bytes(payload.as_bytes()) {
        Ok(s) => s,
        Err(_) => {
            return Err(TokenError::SerializationError);
        },
    };
    let header = "{\"alg\":\"HS256\",\"typ\":\"JWT\"}";
    proof {
        encode_utf8_valid_utf8(header@);
    }
    let hc = match canon_from_bytes(header.as_bytes()) {
        Ok(s) => s,
        Err(_) => {
            return Err(TokenError::SerializationError);
        },
    };
    let ghost hcb = encode_utf8(hc@);
    let ghost pcb = encode_utf8(pc@);
    let hb64 = encode_base64url(hc.as_str().as_bytes());
    let mut pb64 = encode_base64url(pc.as_str().as_bytes());
    let mut token_bytes = hb64;
    token_bytes.push(46);
    token_bytes.append(&mut pb64);
    let ghost si = signing_input(b64_encode(hcb), b64_encode(pcb));
    proof {
        assert(token_bytes@ =~= si);
    }
    let sig = transform(token_bytes.as_slice(), key);
    let mut sb64 = encode_base64url(sig.as_slice());
    token_bytes.push(46);
    token_bytes.append(&mut sb64);
    proof {
        assert(token_bytes@ =~= token_of(hcb, pcb, *key));
        lemma_b64_encode_alphabet(hcb);
        lemma_b64_encode_alphabet(pcb);
        lemma_b64_encode_alphabet(transform_spec(si, *key));
        assert forall|i: int| 0 <= i < token_bytes@.len() implies token_bytes@[i] < 128 by {
            let l1 = b64_encode(hcb).len() as int;
            let l2 = b64_encode(pcb).len() as int;
            if i < l1 {
                assert(token_bytes@[i] == b64_encode(hcb)[i]);
            } else if i == l1 {
                assert(token_bytes@[i] == 46);
            } else if i < l1 + 1 + l2 {
                assert(token_bytes@[i] == b64_encode(pcb)[i - l1 - 1]);
            } else if i == l1 + 1 + l2 {
                assert(token_bytes@[i] == 46);
            } else {
                assert(token_bytes@[i] == b64_encode(transform_spec(si, *key))[i - l1 - l2 - 2]);
            }
        }
        lemma_ascii_bytes_valid_utf8(token_bytes@);
    }
    let t = bytes_into_string(token_bytes);
    Ok(t)
}

/// Parse and validate a token: decode the three segments, recover the
/// signing input from the signature with the verifying key, and compare it
/// against the first two segments.
pub fn read_jwt(token: &str, key: &KeyPair) -> (r: Result<String, TokenError>)
    requires
        key.wf(),
    ensures
        r matches Ok(s) ==> spec_verify(token.spec_bytes(), *key) == Ok::<Seq<u8>, TokenError>(
            encode_utf8(s@),
        ),
        r matches Err(e) ==> spec_verify(token.spec_bytes(), *key) == Err::<Seq<u8>, TokenError>(
            e,
        ),
{
    let b = token.as_bytes();
    let d1 = find_byte(b, 0, 46);
    proof {
        if d1 == b@.len() {
            lemma_split_on_none(b@, 46);
        } else {
            assert(b@ =~= b@.subrange(0, d1 as int) + seq![46u8] + b@.subrange(
                d1 as int + 1,
                b@.len() as int,
            ));
            lemma_split_on_sep(
                b@.subrange(0, d1 as int),
                b@.subrange(d1 as int + 1, b@.len() as int),
                46,
            );
        }
    }
    if d1 == b.len() {
        return Err(TokenError::MalformedToken);
    }
    let ghost rest1 = b@.subrange(d1 as int + 1, b@.len() as int);
    let d2 = find_byte(b, d1 + 1, 46);
    proof {
        if d2 == b@.len() {
            lemma_split_on_none(rest1, 46);
        } else {
            assert(rest1 =~= b@.subrange(d1 as int + 1, d2 as int) + seq![46u8] + b@.subrange(
                d2 as int + 1,
                b@.len() as int,
            ));
            assert(forall|i: int|
                0 <= i < d2 - d1 - 1 ==> #[trigger] b@.subrange(d1 as int + 1, d2 as int)[i]
                    != 46);
            lemma_split_on_sep(
                b@.subrange(d1 as int + 1, d2 as int),
                b@.subrange(d2 as int + 1, b@.len() as int),
                46,
            );
        }
    }
    if d2 == b.len() {
        return Err(TokenError::MalformedToken);
    }
    let ghost rest2 = b@.subrange(d2 as int + 1, b@.len() as int);
    let d3 = find_byte(b, d2 + 1, 46);
    proof {
        if d3 == b@.len() {
            lemma_split_on_none(rest2, 46);
        } else {
            assert(rest2 =~= b@.subrange(d2 as int + 1, d3 as int) + seq![46u8] + b@.subrange(
                d3 as int + 1,
                b@.len() as int,
            ));
            assert(forall|i: int|
                0 <= i < d3 - d2 - 1 ==> #[trigger] b@.subrange(d2 as int + 1, d3 as int)[i]
                    != 46);
            lemma_split_on_sep(
                b@.subrange(d2 as int + 1, d3 as int),
                b@.subrange(d3 as int + 1, b@.len() as int),
                46,
            );
            lemma_split_on_len(b@.subrange(d3 as int + 1, b@.len() as int), 46);
        }
    }
    if d3 < b.len() {
        return Err(TokenError::MalformedToken);
    }
    let ghost segs = split_on(b@, 46);
    proof {
        assert(segs.len() == 3);
        assert(segs[0] == b@.subrange(0, d1 as int));
        assert(segs[1] == b@.subrange(d1 as int + 1, d2 as int));
        assert(segs[2] == b@.subrange(d2 as int + 1, b@.len() as int));
    }
    let s0 = vstd::slice::slice_subrange(b, 0, d1);
    let s1 = vstd::slice::slice_subrange(b, d1 + 1, d2);
    let s2 = vstd::slice::slice_subrange(b, d2 + 1, b.len());
    match decode_json_segment(s0) {
        Ok(_) => {},
        Err(e) => {
            return Err(e);
        },
    }
    let payload_text = match decode_json_segment(s1) {
        Ok(s) => s,
        Err(e) => {
            return Err(e);
        },
    };
    let sig_raw = match decode_bytes(s2) {
        Ok(v) => v,
        Err(e) => {
            return Err(e);
        },
    };
    let recovered = transform(sig_raw.as_slice(), key);
    let mut si = vstd::slice::slice_to_vec(s0);
    si.push(46);
    let mut s1v = vstd::slice::slice_to_vec(s1);
    si.append(&mut s1v);
    proof {
        assert(si@ =~= signing_input(segs[0], segs[1]));
    }
    if !bytes_eq(recovered.as_slice(), si.as_slice()) {
        return Err(TokenError::SignatureInvalid);
    }
    Ok(payload_text)
}

/// Recover the bytes behind a base64url ciphertext with the given key.
pub fn decrypt(input: &str, key: &KeyPair) -> (r: Result<Vec<u8>, TokenError>)
    requires
        key.wf(),
    ensures
        r matches Ok(v) ==> (spec_decode(input.spec_bytes()) matches Ok(c) && v@ == transform_spec(
            c,
            *key,
        )),
        r matches Err(e) ==> spec_decode(input.spec_bytes()) == Err::<Seq<u8>, TokenError>(e),
{
    match decode_bytes(input.as_bytes()) {
        Ok(raw) => Ok(transform(raw.as_slice(), key)),
        Err(e) => Err(e),
    }
}

/// Malformed tokens: anything other than exactly three dot-separated
/// segments is rejected as `MalformedToken`, whatever the key.
pub proof fn lemma_malformed_token(t: Seq<u8>, k: KeyPair)
    requires
        split_on(t, 46).len() != 3,
    ensures
        spec_verify(t, k) == Err::<Seq<u8>, TokenError>(TokenError::MalformedToken),
{
}

/// A three-segment token whose header segment decodes to text that is not
/// JSON is rejected as `InvalidJson`, whatever the key.
pub proof fn lemma_invalid_json_header(t: Seq<u8>, k: KeyPair)
    requires
        split_on(t, 46).len() == 3,
        spec_decode(split_on(t, 46)[0]) matches Ok(raw) && valid_utf8(raw) && json_canon(raw)
            is None,
    ensures
        spec_verify(t, k) == Err::<Seq<u8>, TokenError>(TokenError::InvalidJson),
{
}

/// A three-segment token whose segments all decode, but whose recovered
/// signing input differs from the first two segments, is rejected as
/// `SignatureInvalid`: a tampered signature is caught exactly when the
/// transform of what it decodes to no longer matches.
pub proof fn lemma_tampered_signature(t: Seq<u8>, k: KeyPair)
    requires
        split_on(t, 46).len() == 3,
        spec_decode_json(split_on(t, 46)[0]) is Ok,
        spec_decode_json(split_on(t, 46)[1]) is Ok,
        spec_decode(split_on(t, 46)[2]) matches Ok(sig) && transform_spec(sig, k) != signing_input(
            split_on(t, 46)[0],
            split_on(t, 46)[1],
        ),
    ensures
        spec_verify(t, k) == Err::<Seq<u8>, TokenError>(TokenError::SignatureInvalid),
{
}

/// Signature integrity: a token built from canonical header and payload
/// bytes with the signing key verifies under the matching verifying key
/// and returns exactly the payload.
pub proof fn lemma_signature_integrity(hc: Seq<u8>, pc: Seq<u8>, sk: KeyPair, vk: KeyPair)
    requires
        inverse_keys(sk, vk),
        is_canonical_json(hc),
        is_canonical_json(pc),
    ensures
        spec_verify(token_of(hc, pc, sk), vk) == Ok::<Seq<u8>, TokenError>(pc),
{
    let hb64 = b64_encode(hc);
    let pb64 = b64_encode(pc);
    let si = signing_input(hb64, pb64);
    let sig = transform_spec(si, sk);
    let sb64 = b64_encode(sig);
    let t = token_of(hc, pc, sk);
    lemma_b64_encode_alphabet(hc);
    lemma_b64_encode_alphabet(pc);
    lemma_b64_encode_alphabet(sig);
    assert(t =~= hb64 + seq![46u8] + (pb64 + seq![46u8] + sb64));
    lemma_split_on_sep(hb64, pb64 + seq![46u8] + sb64, 46);
    lemma_split_on_sep(pb64, sb64, 46);
    lemma_split_on_none(sb64, 46);
    let segs = split_on(t, 46);
    assert(segs =~~= seq![hb64, pb64, sb64]);
    crate::codec::lemma_codec_round_trip(hc);
    crate::codec::lemma_codec_round_trip(pc);
    crate::codec::lemma_codec_round_trip(sig);
    assert(spec_decode_json(segs[0]) == Ok::<Seq<u8>, TokenError>(hc));
    assert(spec_decode_json(segs[1]) == Ok::<Seq<u8>, TokenError>(pc));
    lemma_transform_roundtrip(si, sk, vk);
    assert(signing_input(segs[0], segs[1]) == si);
}

/// Verifying a freshly issued token with the matching key returns the
/// canonical form of the payload it was issued for.
pub proof fn lemma_issue_then_verify(p: Seq<u8>, t: Seq<u8>, sk: KeyPair, vk: KeyPair)
    requires
        inverse_keys(sk, vk),
        spec_issue(p, sk) == Ok::<Seq<u8>, TokenError>(t),
        is_canonical_json(json_canon(header_json())->0),
        is_canonical_json(json_canon(p)->0),
    ensures
        spec_verify(t, vk) == Ok::<Seq<u8>, TokenError>(json_canon(p)->0),
{
    lemma_signature_integrity(json_canon(header_json())->0, json_canon(p)->0, sk, vk);
}

} // verus!
