//! Error taxonomy of the token core.

use vstd::prelude::*;

verus! {

/// Everything that can go wrong while issuing or verifying a token.
///
/// Only `KeyLoadError` is fatal to a process (no key, no tokens); the
/// rest are returned to the caller as a rejected input.
#[derive(Clone, Copy, Debug, PartialEq, Eq, Structural)]
pub enum TokenError {
    /// The key record could not be parsed into a modulus and an exponent.
    KeyLoadError,
    /// A base64url segment holds a character outside the alphabet.
    InvalidCharacter,
    /// Decoded segment bytes are not valid UTF-8 text.
    InvalidEncoding,
    /// Decoded segment text is not valid JSON.
    InvalidJson,
    /// The token does not consist of exactly three dot-separated segments.
    MalformedToken,
    /// The recovered signing input does not match the first two segments.
    SignatureInvalid,
    /// The payload handed to issuance is not a serializable JSON value.
    SerializationError,
}

/// How interpreting decoded bytes as canonical JSON text can fail.
#[derive(Clone, Copy, Debug, PartialEq, Eq, Structural)]
pub enum JsonFault {
    /// The bytes are not valid UTF-8.
    NotUtf8,
    /// The bytes are valid UTF-8 text but not valid JSON.
    NotJson,
}

} // verus!
