//! Bit-level base64url codec.
//!
//! Decoding expands every alphabet character into exactly six bits,
//! concatenates the bits, and re-partitions them into eight-bit groups; a
//! trailing group shorter than eight bits is silently discarded.  Encoding
//! is the inverse: the bits of the input bytes, zero-filled on the right up
//! to a multiple of six, read off six at a time.

use vstd::arithmetic::div_mod::lemma_fundamental_div_mod_converse;
use vstd::arithmetic::div_mod::lemma_mod_multiples_vanish;
use vstd::prelude::*;
use vstd::string::StrSliceExecFns;
use vstd::string::StringExecFns;

use crate::errors::TokenError;

verus! {

/// The ASCII byte of the base64url alphabet (`A-Z a-z 0-9 - _`) at index `i`.
pub open spec fn b64_byte(i: int) -> u8
    recommends
        0 <= i < 64,
{
    if i < 26 {
        (65 + i) as u8
    } else if i < 52 {
        (97 + (i - 26)) as u8
    } else if i < 62 {
        (48 + (i - 52)) as u8
    } else if i == 62 {
        45u8
    } else {
        95u8
    }
}

/// The index of byte `b` in the base64url alphabet, or -1 when it is not there.
pub open spec fn b64_index(b: u8) -> int {
    if 65 <= b <= 90 {
        b - 65
    } else if 97 <= b <= 122 {
        26 + (b - 97)
    } else if 48 <= b <= 57 {
        52 + (b - 48)
    } else if b == 45 {
        62
    } else if b == 95 {
        63
    } else {
        -1
    }
}

/// 1 for a set bit, 0 for a clear one.
pub open spec fn bit(b: bool) -> int {
    if b {
        1int
    } else {
        0int
    }
}

/// The eight bits of a byte, most significant first.
pub open spec fn byte_bits(b: u8) -> Seq<bool> {
    seq![
        b / 128 % 2 == 1,
        b / 64 % 2 == 1,
        b / 32 % 2 == 1,
        b / 16 % 2 == 1,
        b / 8 % 2 == 1,
        b / 4 % 2 == 1,
        b / 2 % 2 == 1,
        b % 2 == 1,
    ]
}

/// The six bits of an alphabet index (a value below 64), most significant first.
pub open spec fn sextet_bits(v: int) -> Seq<bool>
    recommends
        0 <= v < 64,
{
    seq![
        v / 32 % 2 == 1,
        v / 16 % 2 == 1,
        v / 8 % 2 == 1,
        v / 4 % 2 == 1,
        v / 2 % 2 == 1,
        v % 2 == 1,
    ]
}

/// All bits of a byte sequence, concatenated.
pub open spec fn bits_of_bytes(s: Seq<u8>) -> Seq<bool>
    decreases s.len(),
{
    if s.len() == 0 {
        Seq::empty()
    } else {
        byte_bits(s[0]) + bits_of_bytes(s.drop_first())
    }
}

/// The bits named by a base64url byte string: six bits per character.
pub open spec fn bits_of_b64(s: Seq<u8>) -> Seq<bool>
    recommends
        all_b64(s),
    decreases s.len(),
{
    if s.len() == 0 {
        Seq::empty()
    } else {
        sextet_bits(b64_index(s[0])) + bits_of_b64(s.drop_first())
    }
}

/// The value of eight bits, most significant first.
pub open spec fn byte_of_bits(b: Seq<bool>) -> u8
    recommends
        b.len() == 8,
{
    (bit(b[0]) * 128 + bit(b[1]) * 64 + bit(b[2]) * 32 + bit(b[3]) * 16 + bit(b[4]) * 8 + bit(
        b[5],
    ) * 4 + bit(b[6]) * 2 + bit(b[7])) as u8
}

/// The value of six bits, most significant first.
pub open spec fn sextet_of_bits(b: Seq<bool>) -> int
    recommends
        b.len() == 6,
{
    bit(b[0]) * 32 + bit(b[1]) * 16 + bit(b[2]) * 8 + bit(b[3]) * 4 + bit(b[4]) * 2 + bit(b[5])
}

/// Re-partition a bit sequence into bytes of eight bits each; a trailing
/// group shorter than eight bits is discarded.
pub open spec fn bytes_of_bits(bits: Seq<bool>) -> Seq<u8>
    decreases bits.len(),
{
    if bits.len() < 8 {
        Seq::empty()
    } else {
        seq![byte_of_bits(bits.take(8))] + bytes_of_bits(bits.skip(8))
    }
}

/// The input with trailing `=` padding bytes removed.
pub open spec fn strip_padding(s: Seq<u8>) -> Seq<u8>
    decreases s.len(),
{
    if s.len() > 0 && s.last() == 61 {
        strip_padding(s.drop_last())
    } else {
        s
    }
}

/// Every byte is in the base64url alphabet.
pub open spec fn all_b64(s: Seq<u8>) -> bool {
    forall|i: int| 0 <= i < s.len() ==> b64_index(s[i]) >= 0
}

/// The bytes that a base64url string (already stripped of padding) decodes to.
pub open spec fn b64_decode(s: Seq<u8>) -> Seq<u8>
    recommends
        all_b64(s),
{
    bytes_of_bits(bits_of_b64(s))
}

/// What the raw decode path yields on arbitrary input bytes.
pub open spec fn spec_decode(s: Seq<u8>) -> Result<Seq<u8>, TokenError> {
    let t = strip_padding(s);
    if all_b64(t) {
        Ok(b64_decode(t))
    } else {
        Err(TokenError::InvalidCharacter)
    }
}

/// Zero bits appended on the right up to a multiple of six.
pub open spec fn pad_to_sextet(bits: Seq<bool>) -> Seq<bool> {
    if bits.len() % 6 == 0 {
        bits
    } else {
        bits + Seq::new((6 - bits.len() % 6) as nat, |i: int| false)
    }
}

/// The alphabet bytes of a bit sequence read six bits at a time.
pub open spec fn b64_of_bits(bits: Seq<bool>) -> Seq<u8>
    decreases bits.len(),
{
    if bits.len() < 6 {
        Seq::empty()
    } else {
        seq![b64_byte(sextet_of_bits(bits.take(6)))] + b64_of_bits(bits.skip(6))
    }
}

/// The unpadded base64url encoding of a byte sequence.
pub open spec fn b64_encode(s: Seq<u8>) -> Seq<u8> {
    b64_of_bits(pad_to_sextet(bits_of_bytes(s)))
}

/// Relies on base64_url::encode, which produces the unpadded base64url
/// encoding over the URL-safe alphabet: six bits per output character, the
/// final character carrying zero bits as filler, no `=` padding.
#[verifier::external_body]
pub(crate) fn encode_base64url(input: &[u8]) -> (r: Vec<u8>)
    ensures
        r@ == b64_encode(input@),
{
    base64_url::encode(input).into_bytes()
}

/// Look a byte up in the base64url alphabet.
fn b64_lookup(b: u8) -> (r: Option<u8>)
    ensures
        match r {
            Some(v) => 0 <= v < 64 && v as int == b64_index(b),
            None => b64_index(b) == -1,
        },
{
    if 65 <= b && b <= 90 {
        Some(b - 65)
    } else if 97 <= b && b <= 122 {
        Some(26 + (b - 97))
    } else if 48 <= b && b <= 57 {
        Some(52 + (b - 48))
    } else if b == 45 {
        Some(62)
    } else if b == 95 {
        Some(63)
    } else {
        None
    }
}

/// Append the six bits of a sextet value, most significant first.
fn push_sextet(bits: &mut Vec<bool>, v: u8)
    requires
        v < 64,
    ensures
        final(bits)@ == old(bits)@ + sextet_bits(v as int),
{
    bits.push(v / 32 % 2 == 1);
    bits.push(v / 16 % 2 == 1);
    bits.push(v / 8 % 2 == 1);
    bits.push(v / 4 % 2 == 1);
    bits.push(v / 2 % 2 == 1);
    bits.push(v % 2 == 1);
    assert(bits@ =~= old(bits)@ + sextet_bits(v as int));
}

/// Read the eight bits starting at `j` as one byte, most significant first.
fn read_byte(bits: &Vec<bool>, j: usize) -> (v: u8)
    requires
        j + 8 <= bits@.len(),
    ensures
        v == byte_of_bits(bits@.subrange(j as int, j as int + 8)),
{
    let n = bits.len();
    assert(j + 8 <= n);
    let v: u8 = (if bits[j] {
        128u8
    } else {
        0u8
    }) + (if bits[j + 1] {
        64u8
    } else {
        0u8
    }) + (if bits[j + 2] {
        32u8
    } else {
        0u8
    }) + (if bits[j + 3] {
        16u8
    } else {
        0u8
    }) + (if bits[j + 4] {
        8u8
    } else {
        0u8
    }) + (if bits[j + 5] {
        4u8
    } else {
        0u8
    }) + (if bits[j + 6] {
        2u8
    } else {
        0u8
    }) + (if bits[j + 7] {
        1u8
    } else {
        0u8
    });
    v
}

proof fn lemma_bits_of_b64_push(s: Seq<u8>, x: u8)
    ensures
        bits_of_b64(s.push(x)) == bits_of_b64(s) + sextet_bits(b64_index(x)),
    decreases s.len(),
{
    if s.len() == 0 {
        assert(s.push(x).drop_first() =~= s);
        assert(bits_of_b64(s.push(x)) =~= bits_of_b64(s) + sextet_bits(b64_index(x)));
    } else {
        assert(s.push(x).drop_first() =~= s.drop_first().push(x));
        lemma_bits_of_b64_push(s.drop_first(), x);
        assert(bits_of_b64(s.push(x)) =~= bits_of_b64(s) + sextet_bits(b64_index(x)));
    }
}

proof fn lemma_bytes_of_bits_append(a: Seq<bool>, b: Seq<bool>)
    requires
        a.len() % 8 == 0,
    ensures
        bytes_of_bits(a + b) == bytes_of_bits(a) + bytes_of_bits(b),
    decreases a.len(),
{
    if a.len() == 0 {
        assert(a + b =~= b);
        assert(bytes_of_bits(a + b) =~= bytes_of_bits(a) + bytes_of_bits(b));
    } else {
        assert((a + b).take(8) =~= a.take(8));
        assert((a + b).skip(8) =~= a.skip(8) + b);
        assert(a.skip(8).len() % 8 == 0);
        lemma_bytes_of_bits_append(a.skip(8), b);
        assert(bytes_of_bits(a + b) =~= bytes_of_bits(a) + bytes_of_bits(b));
    }
}

/// An alphabet byte decodes back to its index, and is never `=` (61), never
/// a dot (46), and always below 128.
proof fn lemma_b64_byte_index(i: int)
    requires
        0 <= i < 64,
    ensures
        b64_index(b64_byte(i)) == i,
        b64_byte(i) != 61,
        b64_byte(i) != 46,
        b64_byte(i) < 128,
{
}

/// Every byte that `b64_of_bits` emits is an alphabet byte.
proof fn lemma_b64_of_bits_alphabet(bits: Seq<bool>)
    ensures
        all_b64(b64_of_bits(bits)),
        forall|k: int|
            0 <= k < b64_of_bits(bits).len() ==> b64_of_bits(bits)[k] != 61 && b64_of_bits(
                bits,
            )[k] != 46 && b64_of_bits(bits)[k] < 128,
    decreases bits.len(),
{
    if bits.len() < 6 {
    } else {
        let v = sextet_of_bits(bits.take(6));
        assert(0 <= v < 64);
        lemma_b64_byte_index(v);
        lemma_b64_of_bits_alphabet(bits.skip(6));
        let enc = b64_of_bits(bits);
        assert forall|k: int| 0 <= k < enc.len() implies b64_index(enc[k]) >= 0 && enc[k] != 61
            && enc[k] != 46 && enc[k] < 128 by {
            if k == 0 {
                assert(enc[0] == b64_byte(v));
            } else {
                assert(enc[k] == b64_of_bits(bits.skip(6))[k - 1]);
            }
        }
    }
}

/// Every byte of an encoding is an alphabet byte: never `=` (61), never a
/// dot (46), always below 128.
pub proof fn lemma_b64_encode_alphabet(s: Seq<u8>)
    ensures
        all_b64(b64_encode(s)),
        forall|k: int|
            0 <= k < b64_encode(s).len() ==> b64_encode(s)[k] != 61 && b64_encode(s)[k] != 46
                && b64_encode(s)[k] < 128,
{
    lemma_b64_of_bits_alphabet(pad_to_sextet(bits_of_bytes(s)));
}

/// The six bits of the value of six bits are those bits again.
proof fn lemma_sextet_bits_roundtrip(b: Seq<bool>)
    requires
        b.len() == 6,
    ensures
        sextet_bits(sextet_of_bits(b)) == b,
{
    let x0 = bit(b[0]);
    let x1 = bit(b[1]);
    let x2 = bit(b[2]);
    let x3 = bit(b[3]);
    let x4 = bit(b[4]);
    let x5 = bit(b[5]);
    let v = sextet_of_bits(b);
    lemma_fundamental_div_mod_converse(v, 32, x0, 16 * x1 + 8 * x2 + 4 * x3 + 2 * x4 + x5);
    lemma_fundamental_div_mod_converse(v, 16, 2 * x0 + x1, 8 * x2 + 4 * x3 + 2 * x4 + x5);
    lemma_fundamental_div_mod_converse(v, 8, 4 * x0 + 2 * x1 + x2, 4 * x3 + 2 * x4 + x5);
    lemma_fundamental_div_mod_converse(v, 4, 8 * x0 + 4 * x1 + 2 * x2 + x3, 2 * x4 + x5);
    lemma_fundamental_div_mod_converse(v, 2, 16 * x0 + 8 * x1 + 4 * x2 + 2 * x3 + x4, x5);
    lemma_mod_multiples_vanish(x0, 0, 2);
    lemma_mod_multiples_vanish(x0, x1, 2);
    lemma_mod_multiples_vanish(2 * x0 + x1, x2, 2);
    lemma_mod_multiples_vanish(4 * x0 + 2 * x1 + x2, x3, 2);
    lemma_mod_multiples_vanish(8 * x0 + 4 * x1 + 2 * x2 + x3, x4, 2);
    assert(sextet_bits(v) =~= b);
}

/// The value of the eight bits of a byte is that byte again.
proof fn lemma_byte_bits_roundtrip(x: u8)
    ensures
        byte_of_bits(byte_bits(x)) == x,
{
    let b = x as int;
    let x0 = bit(b / 128 % 2 == 1);
    let x1 = bit(b / 64 % 2 == 1);
    let x2 = bit(b / 32 % 2 == 1);
    let x3 = bit(b / 16 % 2 == 1);
    let x4 = bit(b / 8 % 2 == 1);
    let x5 = bit(b / 4 % 2 == 1);
    let x6 = bit(b / 2 % 2 == 1);
    let x7 = bit(b % 2 == 1);
    assert(x == ((x / 128 % 2) * 128 + (x / 64 % 2) * 64 + (x / 32 % 2) * 32 + (x / 16 % 2) * 16 + (
    x / 8 % 2) * 8 + (x / 4 % 2) * 4 + (x / 2 % 2) * 2 + x % 2)) by (bit_vector);
    assert(byte_of_bits(byte_bits(x)) == x);
}

/// Reading the bits that a base64url string names gives back the bits it
/// was made from, six at a time.
proof fn lemma_bits_of_b64_of_bits(bits: Seq<bool>)
    requires
        bits.len() % 6 == 0,
    ensures
        bits_of_b64(b64_of_bits(bits)) == bits,
    decreases bits.len(),
{
    if bits.len() == 0 {
        assert(bits_of_b64(b64_of_bits(bits)) =~= bits);
    } else {
        let head = bits.take(6);
        let tail = bits.skip(6);
        let v = sextet_of_bits(head);
        assert(0 <= v < 64);
        lemma_b64_byte_index(v);
        lemma_sextet_bits_roundtrip(head);
        assert(tail.len() % 6 == 0);
        lemma_bits_of_b64_of_bits(tail);
        let enc = b64_of_bits(bits);
        assert(enc[0] == b64_byte(v));
        assert(enc.drop_first() =~= b64_of_bits(tail));
        assert(bits_of_b64(enc) =~= sextet_bits(v) + bits_of_b64(b64_of_bits(tail)));
        assert(sextet_bits(v) + tail =~= bits);
    }
}

/// Re-grouping the bits of a byte sequence, with any short tail of filler
/// bits, yields the byte sequence again.
proof fn lemma_bytes_of_bits_inverse(s: Seq<u8>, tail: Seq<bool>)
    requires
        tail.len() < 8,
    ensures
        bytes_of_bits(bits_of_bytes(s) + tail) == s,
    decreases s.len(),
{
    let full = bits_of_bytes(s) + tail;
    if s.len() == 0 {
        assert(full =~= tail);
        assert(bytes_of_bits(full) =~= s);
    } else {
        assert(full.take(8) =~= byte_bits(s[0]));
        assert(full.skip(8) =~= bits_of_bytes(s.drop_first()) + tail);
        lemma_byte_bits_roundtrip(s[0]);
        lemma_bytes_of_bits_inverse(s.drop_first(), tail);
        assert(bytes_of_bits(full) =~= s);
    }
}

/// The bits of a byte sequence are eight per byte.
proof fn lemma_bits_of_bytes_len(s: Seq<u8>)
    ensures
        bits_of_bytes(s).len() == 8 * s.len(),
    decreases s.len(),
{
    if s.len() > 0 {
        lemma_bits_of_bytes_len(s.drop_first());
    }
}

/// Round trip of the codec: decoding an encoding returns the input bytes
/// exactly; the filler bits of the last character are the discarded short
/// group.
pub proof fn lemma_codec_round_trip(s: Seq<u8>)
    ensures
        spec_decode(b64_encode(s)) == Ok::<Seq<u8>, TokenError>(s),
{
    let bits8 = bits_of_bytes(s);
    lemma_bits_of_bytes_len(s);
    let padded = pad_to_sextet(bits8);
    assert(padded.len() % 6 == 0);
    let enc = b64_encode(s);
    lemma_b64_of_bits_alphabet(padded);
    if enc.len() > 0 {
        assert(enc.last() != 61);
    }
    assert(strip_padding(enc) == enc);
    lemma_bits_of_b64_of_bits(padded);
    let z = padded.skip(bits8.len() as int);
    assert(padded =~= bits8 + z);
    assert(z.len() < 8);
    lemma_bytes_of_bits_inverse(s, z);
}

/// Decode a base64url byte string: strip trailing `=`, expand each
/// character into six bits, and re-group the bits into bytes, discarding a
/// short trailing group.
pub fn decode_bytes(input: &[u8]) -> (r: Result<Vec<u8>, TokenError>)
    ensures
        match r {
            Ok(v) => spec_decode(input@) == Ok::<Seq<u8>, TokenError>(v@),
            Err(e) => spec_decode(input@) == Err::<Seq<u8>, TokenError>(e),
        },
{
    let mut end: usize = input.len();
    assert(input@.take(end as int) =~= input@);
    while end > 0 && input[end - 1] == 61
        invariant
            0 <= end <= input@.len(),
            strip_padding(input@) == strip_padding(input@.take(end as int)),
        decreases end,
    {
        assert(input@.take(end as int).last() == 61);
        assert(input@.take(end as int).drop_last() =~= input@.take(end as int - 1));
        end = end - 1;
    }
    let ghost stripped = input@.take(end as int);
    proof {
        if end > 0 {
            assert(stripped.last() == input@[end as int - 1]);
        }
        assert(strip_padding(stripped) == stripped);
    }
    let mut bits: Vec<bool> = Vec::new();
    let mut i: usize = 0;
    while i < end
        invariant
            0 <= i <= end <= input@.len(),
            stripped == input@.take(end as int),
            strip_padding(input@) == stripped,
            all_b64(stripped.take(i as int)),
            bits@ == bits_of_b64(stripped.take(i as int)),
            bits@.len() == 6 * i,
        decreases end - i,
    {
        let b = input[i];
        assert(stripped[i as int] == b);
        match b64_lookup(b) {
            None => {
                assert(!all_b64(stripped));
                return Err(TokenError::InvalidCharacter);
            },
            Some(v) => {
                proof {
                    lemma_bits_of_b64_push(stripped.take(i as int), b);
                    assert(stripped.take(i as int).push(b) =~= stripped.take(i as int + 1));
                }
                push_sextet(&mut bits, v);
            },
        }
        i = i + 1;
    }
    assert(stripped.take(end as int) =~= stripped);
    let mut out: Vec<u8> = Vec::new();
    let mut j: usize = 0;
    while bits.len() - j >= 8
        invariant
            0 <= j <= bits@.len(),
            j % 8 == 0,
            out@ == bytes_of_bits(bits@.take(j as int)),
        decreases bits@.len() - j,
    {
        let v = read_byte(&bits, j);
        proof {
            let group = bits@.subrange(j as int, j as int + 8);
            lemma_bytes_of_bits_append(bits@.take(j as int), group);
            assert(bits@.take(j as int) + group =~= bits@.take(j as int + 8));
            assert(group.take(8) =~= group);
            assert(group.skip(8).len() == 0);
            assert(bytes_of_bits(group.skip(8)) =~= Seq::<u8>::empty());
            assert(bytes_of_bits(group) =~= seq![byte_of_bits(group)]);
            assert(bytes_of_bits(bits@.take(j as int + 8)) =~= out@.push(v));
        }
        out.push(v);
        j = j + 8;
    }
    proof {
        let tail = bits@.skip(j as int);
        assert(tail.len() < 8);
        lemma_bytes_of_bits_append(bits@.take(j as int), tail);
        assert(bits@.take(j as int) + tail =~= bits@);
        assert(bytes_of_bits(bits@) =~= bytes_of_bits(bits@.take(j as int)));
    }
    Ok(out)
}

/// The characters of `s` with a space inserted after each group of `num`
/// characters; `ctr` counts how far into the current group the front of
/// `s` already stands.
pub open spec fn spaced(s: Seq<char>, num: int, ctr: int) -> Seq<char>
    decreases s.len(),
{
    if s.len() == 0 {
        Seq::empty()
    } else if ctr + 1 == num {
        seq![s[0], ' '] + spaced(s.drop_first(), num, 0)
    } else {
        seq![s[0]] + spaced(s.drop_first(), num, ctr + 1)
    }
}

/// With no positive group width, no space is ever inserted.
proof fn lemma_spaced_whole(s: Seq<char>, num: int, ctr: int)
    requires
        num <= 0,
        ctr >= 0,
    ensures
        spaced(s, num, ctr) == s,
    decreases s.len(),
{
    if s.len() == 0 {
        assert(spaced(s, num, ctr) =~= s);
    } else {
        lemma_spaced_whole(s.drop_first(), num, ctr + 1);
        assert(spaced(s, num, ctr) =~= s);
    }
}

/// Group a string's characters: a space is inserted after every `num`
/// characters (none when `num` is not positive).
pub fn separa_string_binaria(string: &str, num: i32) -> (r: String)
    ensures
        r@ == spaced(string@, num as int, 0),
{
    let mut r = String::new();
    if num <= 0 {
        proof {
            lemma_spaced_whole(string@, num as int, 0);
        }
        r.append(string);
        return r;
    }
    let len = string.unicode_len();
    let mut i: usize = 0;
    let mut ctr: i32 = 0;
    proof {
        assert(string@.skip(0) =~= string@);
        assert(r@ + spaced(string@, num as int, 0) =~= spaced(string@, num as int, 0));
    }
    while i < len
        invariant
            0 <= i <= len,
            len == string@.len(),
            0 < num,
            0 <= ctr < num,
            spaced(string@, num as int, 0) == r@ + spaced(
                string@.skip(i as int),
                num as int,
                ctr as int,
            ),
        decreases len - i,
    {
        let c = string.substring_char(i, i + 1);
        proof {
            assert(string@.skip(i as int).drop_first() =~= string@.skip(i as int + 1));
            assert(c@ =~= seq![string@.skip(i as int)[0]]);
        }
        r.append(c);
        if ctr + 1 == num {
            r.append(" ");
            proof {
                reveal_strlit(" ");
                assert(" "@ =~= seq![' ']);
            }
            ctr = 0;
        } else {
            ctr = ctr + 1;
        }
        i = i + 1;
    }
    proof {
        assert(string@.skip(len as int) =~= Seq::<char>::empty());
    }
    r
}

} // verus!
