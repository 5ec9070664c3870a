//! Issuing and verifying compact signed message tokens.
//!
//! A token is three dot-separated base64url segments: an encoded header,
//! an encoded payload, and a signature made by a per-byte modular
//! exponentiation of the signing input `header_b64 + "." + payload_b64`.

pub mod codec;
pub mod errors;
pub mod jsoncanon;
pub mod keys;
pub mod rsa;
pub mod split;
pub mod token;

pub use codec::decode_bytes;
pub use codec::separa_string_binaria;
pub use errors::JsonFault;
pub use errors::TokenError;
pub use keys::parse_keys;
pub use rsa::mod_pow;
pub use rsa::rsa_to_msg;
pub use rsa::transform;
pub use rsa::KeyPair;
pub use token::decodificar_json_base64;
pub use token::decrypt;
pub use token::generate_jwt;
pub use token::read_jwt;
