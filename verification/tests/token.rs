use jwt_rsa::decrypt;
use jwt_rsa::generate_jwt;
use jwt_rsa::parse_keys;
use jwt_rsa::read_jwt;
use jwt_rsa::transform;
use jwt_rsa::KeyPair;
use jwt_rsa::TokenError;

// modulus 257 keeps every per-byte ciphertext below 256:
// 3 * 171 = 513, which is 1 modulo 256
fn signing_key() -> KeyPair {
    KeyPair { modulus: 257, exponent: 171 }
}

fn verifying_key() -> KeyPair {
    KeyPair { modulus: 257, exponent: 3 }
}

#[test]
fn issue_then_verify_returns_payload() {
    let payload = "{\"username\":\"a\",\"text\":\"hi\",\"timestamp\":\"2024-01-01T00:00:00Z\"}";
    let token = generate_jwt(payload, &signing_key()).unwrap();
    let out = read_jwt(&token, &verifying_key()).unwrap();
    let expected: serde_json::Value = serde_json::from_str(payload).unwrap();
    let got: serde_json::Value = serde_json::from_str(&out).unwrap();
    assert_eq!(got, expected);
}

#[test]
fn verify_returns_canonical_payload() {
    let token = generate_jwt("{ \"a\" : 1 }", &signing_key()).unwrap();
    let out = read_jwt(&token, &verifying_key()).unwrap();
    assert_eq!(out, "{\"a\":1}");
}

#[test]
fn token_has_three_segments_and_fixed_header() {
    let token = generate_jwt("{\"a\":1}", &signing_key()).unwrap();
    let parts: Vec<&str> = token.split('.').collect();
    assert_eq!(parts.len(), 3);
    let header = jwt_rsa::decodificar_json_base64(parts[0]).unwrap();
    assert_eq!(header, "{\"alg\":\"HS256\",\"typ\":\"JWT\"}");
}

#[test]
fn invalid_payload_is_rejected_on_issue() {
    assert_eq!(
        generate_jwt("not json", &signing_key()),
        Err(TokenError::SerializationError)
    );
}

#[test]
fn two_segments_are_malformed() {
    assert_eq!(
        read_jwt("a.b", &verifying_key()),
        Err(TokenError::MalformedToken)
    );
}

#[test]
fn four_segments_are_malformed() {
    assert_eq!(
        read_jwt("a.b.c.d", &verifying_key()),
        Err(TokenError::MalformedToken)
    );
}

#[test]
fn non_json_header_is_rejected() {
    // "aGk" decodes to the text "hi"
    assert_eq!(
        read_jwt("aGk.aGk.AAAA", &verifying_key()),
        Err(TokenError::InvalidJson)
    );
}

#[test]
fn bad_character_in_segment_is_rejected() {
    assert_eq!(
        read_jwt("a(b.c.d", &verifying_key()),
        Err(TokenError::InvalidCharacter)
    );
}

#[test]
fn tampered_signature_is_rejected() {
    let token = generate_jwt("{\"a\":1}", &signing_key()).unwrap();
    let parts: Vec<&str> = token.split('.').collect();
    let mut sig: Vec<char> = parts[2].chars().collect();
    sig[0] = if sig[0] == 'A' { 'B' } else { 'A' };
    let sig: String = sig.into_iter().collect();
    let tampered = format!("{}.{}.{}", parts[0], parts[1], sig);
    assert_eq!(
        read_jwt(&tampered, &verifying_key()),
        Err(TokenError::SignatureInvalid)
    );
}

#[test]
fn wrong_key_is_rejected() {
    let token = generate_jwt("{\"a\":1}", &signing_key()).unwrap();
    let wrong = KeyPair { modulus: 257, exponent: 5 };
    assert_eq!(read_jwt(&token, &wrong), Err(TokenError::SignatureInvalid));
}

#[test]
fn decrypt_undoes_a_transform() {
    let cipher = transform(b"hi", &signing_key());
    let encoded = base64_url::encode(&cipher);
    assert_eq!(decrypt(&encoded, &verifying_key()), Ok(b"hi".to_vec()));
}

#[test]
fn decrypt_rejects_bad_encoding() {
    assert_eq!(
        decrypt("a b", &verifying_key()),
        Err(TokenError::InvalidCharacter)
    );
}

#[test]
fn unicode_payload_round_trips() {
    let payload = "{\"text\":\"ol\u{00e1} mundo\"}";
    let token = generate_jwt(payload, &signing_key()).unwrap();
    assert!(token.is_ascii());
    let out = read_jwt(&token, &verifying_key()).unwrap();
    let expected: serde_json::Value = serde_json::from_str(payload).unwrap();
    let got: serde_json::Value = serde_json::from_str(&out).unwrap();
    assert_eq!(got, expected);
}

#[test]
fn non_utf8_header_is_rejected() {
    // "_w" decodes to the single byte 0xff
    assert_eq!(
        read_jwt("_w._w.AAAA", &verifying_key()),
        Err(TokenError::InvalidEncoding)
    );
}

#[test]
fn key_record_parses() {
    assert_eq!(
        parse_keys("3233\n17\n2753"),
        Ok(KeyPair { modulus: 3233, exponent: 2753 })
    );
}

#[test]
fn key_record_with_carriage_returns_parses() {
    assert_eq!(
        parse_keys("257\r\n3\r\n171\r\n"),
        Ok(KeyPair { modulus: 257, exponent: 171 })
    );
}

#[test]
fn short_key_record_is_rejected() {
    assert_eq!(parse_keys("257\n3"), Err(TokenError::KeyLoadError));
}

#[test]
fn non_numeric_key_record_is_rejected() {
    assert_eq!(parse_keys("abc\n1\n2"), Err(TokenError::KeyLoadError));
}

#[test]
fn zero_modulus_is_rejected() {
    assert_eq!(parse_keys("0\n1\n2"), Err(TokenError::KeyLoadError));
}
