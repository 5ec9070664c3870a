use jwt_rsa::mod_pow;
use jwt_rsa::rsa_to_msg;
use jwt_rsa::transform;
use jwt_rsa::KeyPair;

#[test]
fn textbook_sign_then_verify_single_byte() {
    // the textbook key set: modulus 3233, public exponent 17, private 2753
    let signed = mod_pow(65, 2753, 3233);
    let recovered = mod_pow(signed, 17, 3233);
    assert_eq!(recovered, 65);
}

#[test]
fn textbook_encrypt_value() {
    assert_eq!(mod_pow(65, 17, 3233), 2790);
    assert_eq!(mod_pow(2790, 2753, 3233), 65);
}

#[test]
fn mod_pow_edges() {
    assert_eq!(mod_pow(5, 0, 7), 1);
    assert_eq!(mod_pow(0, 5, 7), 0);
    assert_eq!(mod_pow(10, 1, 7), 3);
    assert_eq!(mod_pow(9, 2, 1), 0);
}

#[test]
fn rsa_to_msg_recovers_bytes() {
    assert_eq!(rsa_to_msg(&[2790], 3233, 2753), vec![65u8]);
}

#[test]
fn byte_below_modulus_survives_transform_pair() {
    // modulus 251, exponents 3 and 167: 3 * 167 = 501, 1 modulo 250
    let sign = KeyPair { modulus: 251, exponent: 3 };
    let verify = KeyPair { modulus: 251, exponent: 167 };
    let mid = transform(&[100u8], &sign);
    let back = transform(&mid, &verify);
    assert_eq!(back, vec![100u8]);
}

#[test]
fn byte_at_or_above_modulus_is_corrupted() {
    // 252 is not below the modulus 251, so the transform pair cannot
    // return it: the known structural limit of the per-byte scheme
    let sign = KeyPair { modulus: 251, exponent: 3 };
    let verify = KeyPair { modulus: 251, exponent: 167 };
    let mid = transform(&[252u8], &sign);
    let back = transform(&mid, &verify);
    assert_ne!(back, vec![252u8]);
}
