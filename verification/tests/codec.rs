use jwt_rsa::decode_bytes;
use jwt_rsa::decodificar_json_base64;
use jwt_rsa::separa_string_binaria;
use jwt_rsa::TokenError;

#[test]
fn round_trip_block_sized() {
    let data: Vec<u8> = b"abcdef".to_vec();
    let encoded = base64_url::encode(&data);
    assert_eq!(decode_bytes(encoded.as_bytes()), Ok(data));
}

#[test]
fn round_trip_various_lengths() {
    for len in 0..20usize {
        let data: Vec<u8> = (0..len).map(|i| (i * 37 + 11) as u8).collect();
        let encoded = base64_url::encode(&data);
        assert_eq!(decode_bytes(encoded.as_bytes()), Ok(data));
    }
}

#[test]
fn known_encoding_decodes() {
    // "aGVsbG8" is the unpadded base64url of "hello"
    assert_eq!(decode_bytes(b"aGVsbG8"), Ok(b"hello".to_vec()));
}

#[test]
fn trailing_padding_is_stripped() {
    assert_eq!(decode_bytes(b"QQ=="), Ok(vec![65u8]));
}

#[test]
fn short_trailing_group_is_discarded() {
    // 'Q' 'Q' gives twelve bits: one byte, four discarded filler bits
    assert_eq!(decode_bytes(b"QQ"), Ok(vec![65u8]));
    // a single character gives six bits: nothing survives
    assert_eq!(decode_bytes(b"A"), Ok(vec![]));
}

#[test]
fn character_outside_alphabet_rejected() {
    assert_eq!(decode_bytes(b"a$b"), Err(TokenError::InvalidCharacter));
    assert_eq!(decode_bytes(b"a=b"), Err(TokenError::InvalidCharacter));
}

#[test]
fn json_decode_canonicalizes() {
    let encoded = base64_url::encode("{ \"a\" : 1 }");
    let decoded = decodificar_json_base64(&encoded).unwrap();
    assert_eq!(decoded, "{\"a\":1}");
}

#[test]
fn json_decode_rejects_non_json() {
    // "aGk" decodes to the text "hi"
    assert_eq!(
        decodificar_json_base64("aGk"),
        Err(TokenError::InvalidJson)
    );
}

#[test]
fn json_decode_rejects_invalid_utf8() {
    // "_w" decodes to the single byte 0xff
    assert_eq!(
        decodificar_json_base64("_w"),
        Err(TokenError::InvalidEncoding)
    );
}

#[test]
fn json_decode_rejects_bad_character() {
    assert_eq!(
        decodificar_json_base64("a!b"),
        Err(TokenError::InvalidCharacter)
    );
}

#[test]
fn grouping_inserts_spaces() {
    assert_eq!(separa_string_binaria("11110000", 4), "1111 0000 ");
    assert_eq!(separa_string_binaria("110", 8), "110");
}

#[test]
fn grouping_without_positive_width() {
    assert_eq!(separa_string_binaria("101", 0), "101");
    assert_eq!(separa_string_binaria("101", -3), "101");
}
