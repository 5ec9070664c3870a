//! Fixed-width modular exponentiation engine.
//!
//! A single (modulus, exponent) pair is applied per byte, both to sign
//! (with the private exponent) and to recover the signing input (with the
//! public one).  The per-byte block structure is kept as designed: an input
//! byte must stay below the modulus to be recoverable, so a modulus above
//! 255 is a hard precondition of the scheme as a whole.

use vstd::arithmetic::div_mod::lemma_mod_division_less_than_divisor;
use vstd::arithmetic::div_mod::lemma_mul_mod_noop_general;
use vstd::arithmetic::div_mod::lemma_small_mod;
use vstd::arithmetic::power::lemma_pow1;
use vstd::arithmetic::power::lemma_pow_adds;
use vstd::arithmetic::power::lemma_pow_mod_noop;
use vstd::arithmetic::power::lemma_pow_multiplies;
use vstd::arithmetic::power::pow;
use vstd::prelude::*;

verus! {

/// One half of a key: the shared modulus and one exponent.
#[derive(Clone, Copy, Debug, PartialEq, Eq, Structural)]
pub struct KeyPair {
    pub modulus: u64,
    pub exponent: u64,
}

impl KeyPair {
    /// A key is usable once its modulus is positive.
    pub open spec fn wf(self) -> bool {
        self.modulus > 0
    }
}

/// `b^e` reduced by the modulus `m`.
pub open spec fn pow_mod(b: nat, e: nat, m: nat) -> nat
    recommends
        m > 0,
{
    (pow(b as int, e) % (m as int)) as nat
}

/// `base^exp mod modulus` by square and multiply, over a double-width
/// accumulator so that no intermediate square overflows.
pub fn mod_pow(base: u128, exp: u64, modulus: u128) -> (r: u128)
    requires
        0 < modulus,
        modulus <= 0x10000000000000000u128,
    ensures
        r as nat == pow_mod(base as nat, exp as nat, modulus as nat),
{
    if modulus == 1 {
        proof {
            lemma_mod_division_less_than_divisor(pow(base as int, exp as nat), 1);
        }
        return 0;
    }
    let mut result: u128 = 1;
    let mut b: u128 = base % modulus;
    let mut e: u64 = exp;
    proof {
        lemma_pow_mod_noop(base as int, exp as nat, modulus as int);
    }
    while e > 0
        invariant
            1 < modulus <= 0x10000000000000000u128,
            b < modulus,
            result < modulus,
            (result as int * pow(b as int, e as nat)) % (modulus as int) == pow(
                base as int,
                exp as nat,
            ) % (modulus as int),
        decreases e,
    {
        let ghost m = modulus as int;
        let ghost r0 = result as int;
        let ghost b0 = b as int;
        let ghost e0 = e as nat;
        let ghost h = (e0 / 2) as nat;
        proof {
            assert(pow(b0, 2) == b0 * b0) by {
                lemma_pow_adds(b0, 1, 1);
                lemma_pow1(b0);
            }
            lemma_pow_multiplies(b0, 2, h);
            assert(pow(b0 * b0, h) == pow(b0, 2 * h));
            lemma_pow_mod_noop(b0 * b0, h, m);
            assert(b0 * b0 <= 0xffffffffffffffff * 0xffffffffffffffff) by (nonlinear_arith)
                requires
                    0 <= b0 < m,
                    m <= 0x10000000000000000,
            ;
            assert(r0 * b0 <= 0xffffffffffffffff * 0xffffffffffffffff) by (nonlinear_arith)
                requires
                    0 <= b0 < m,
                    0 <= r0 < m,
                    m <= 0x10000000000000000,
            ;
        }
        if e % 2 == 1 {
            proof {
                // result' * pow(b', h) stays congruent: peel one factor off
                // the power and fold both reductions away.
                lemma_pow_adds(b0, 1, 2 * h);
                lemma_pow1(b0);
                assert(pow(b0, e0) == b0 * pow(b0, 2 * h));
                lemma_mul_mod_noop_general(r0 * b0, pow((b0 * b0) % m, h), m);
                lemma_mul_mod_noop_general(r0 * b0, pow(b0, 2 * h), m);
                assert((r0 * b0) * pow(b0, 2 * h) == r0 * (b0 * pow(b0, 2 * h)))
                    by (nonlinear_arith);
                assert((((r0 * b0) % m) * pow((b0 * b0) % m, h)) % m == (r0 * pow(b0, e0)) % m);
                lemma_mod_division_less_than_divisor(r0 * b0, m);
            }
            result = (result * b) % modulus;
        } else {
            proof {
                assert(e0 == 2 * h);
                lemma_mul_mod_noop_general(r0, pow((b0 * b0) % m, h), m);
                lemma_mul_mod_noop_general(r0, pow(b0, 2 * h), m);
                assert((r0 * pow((b0 * b0) % m, h)) % m == (r0 * pow(b0, e0)) % m);
            }
        }
        proof {
            lemma_mod_division_less_than_divisor(b0 * b0, m);
        }
        b = (b * b) % modulus;
        e = e / 2;
    }
    proof {
        vstd::arithmetic::power::lemma_pow0(b as int);
        lemma_small_mod(result as nat, modulus as nat);
    }
    result
}

/// The per-byte transform: each input byte raised to the key's exponent
/// modulo the key's modulus, the result truncated to a single byte.
pub open spec fn transform_spec(s: Seq<u8>, k: KeyPair) -> Seq<u8> {
    Seq::new(
        s.len(),
        |i: int| (pow_mod(s[i] as nat, k.exponent as nat, k.modulus as nat) % 256) as u8,
    )
}

/// Apply the key's modular-exponentiation transform to every byte
/// independently.
///
/// The output value for a byte is truncated to a single byte, exactly as
/// the wire format has it; only inputs whose transformed values stay below
/// 256 survive a signing/verifying pair of transforms.
pub fn transform(data: &[u8], key: &KeyPair) -> (r: Vec<u8>)
    requires
        key.wf(),
    ensures
        r@ == transform_spec(data@, *key),
{
    let mut out: Vec<u8> = Vec::new();
    let mut i: usize = 0;
    while i < data.len()
        invariant
            0 <= i <= data@.len(),
            key.wf(),
            out@.len() == i,
            forall|k: int| 0 <= k < i ==> out@[k] == transform_spec(data@, *key)[k],
        decreases data@.len() - i,
    {
        let c = mod_pow(data[i] as u128, key.exponent, key.modulus as u128);
        out.push((c % 256) as u8);
        i = i + 1;
    }
    assert(out@ =~= transform_spec(data@, *key));
    out
}

/// Undo the transform on a ciphertext of full-width values: each value is
/// raised to the exponent `d` modulo `n` and truncated to a single byte.
pub fn rsa_to_msg(cipher: &[u64], n: u64, d: u64) -> (r: Vec<u8>)
    requires
        n > 0,
    ensures
        r@.len() == cipher@.len(),
        forall|i: int|
            0 <= i < cipher@.len() ==> r@[i] as nat == pow_mod(cipher@[i] as nat, d as nat, n as nat)
                % 256,
{
    let mut out: Vec<u8> = Vec::new();
    let mut i: usize = 0;
    while i < cipher.len()
        invariant
            0 <= i <= cipher@.len(),
            n > 0,
            out@.len() == i,
            forall|k: int|
                0 <= k < i ==> out@[k] as nat == pow_mod(cipher@[k] as nat, d as nat, n as nat)
                    % 256,
        decreases cipher@.len() - i,
    {
        let c = mod_pow(cipher[i] as u128, d, n as u128);
        out.push((c % 256) as u8);
        i = i + 1;
    }
    out
}

/// The mathematical content of a matching key pair: a shared modulus above
/// every byte value, and exponents that undo one another on byte values,
/// the intermediate transformed value itself fitting a byte.
pub open spec fn inverse_keys(sk: KeyPair, vk: KeyPair) -> bool {
    &&& sk.modulus == vk.modulus
    &&& sk.modulus > 255
    &&& forall|b: nat|
        b < 256 ==> #[trigger] pow_mod(b, sk.exponent as nat, sk.modulus as nat) < 256
    &&& forall|b: nat|
        b < 256 ==> pow_mod(
            #[trigger] pow_mod(b, sk.exponent as nat, sk.modulus as nat),
            vk.exponent as nat,
            vk.modulus as nat,
        ) == b
}

/// A transform with the signing key followed by one with the verifying key
/// returns the input bytes unchanged.
pub proof fn lemma_transform_roundtrip(s: Seq<u8>, sk: KeyPair, vk: KeyPair)
    requires
        inverse_keys(sk, vk),
    ensures
        transform_spec(transform_spec(s, sk), vk) == s,
{
    let mid = transform_spec(s, sk);
    assert forall|i: int| 0 <= i < s.len() implies transform_spec(mid, vk)[i] == s[i] by {
        let b = s[i] as nat;
        assert(pow_mod(b, sk.exponent as nat, sk.modulus as nat) < 256);
        lemma_small_mod(pow_mod(b, sk.exponent as nat, sk.modulus as nat), 256);
        assert(mid[i] as nat == pow_mod(b, sk.exponent as nat, sk.modulus as nat));
        assert(pow_mod(mid[i] as nat, vk.exponent as nat, vk.modulus as nat) == b);
        lemma_small_mod(b, 256);
    }
    assert(transform_spec(transform_spec(s, sk), vk) =~= s);
}

} // verus!
