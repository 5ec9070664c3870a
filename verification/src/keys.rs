//! The key record: plain text, three lines — the modulus, a second
//! exponent line kept for symmetry and ignored here, and the exponent this
//! process uses.

use vstd::prelude::*;
use vstd::string::StringSliceAdditionalSpecFns;

use crate::errors::TokenError;
use crate::rsa::KeyPair;
use crate::split::find_byte;
use crate::split::lemma_split_on_len;
use crate::split::lemma_split_on_none;
use crate::split::lemma_split_on_sep;
use crate::split::split_on;

verus! {

/// A decimal digit byte.
pub open spec fn is_digit(b: u8) -> bool {
    48 <= b <= 57
}

/// The number written by a digit string, most significant digit first.
pub open spec fn digits_val(s: Seq<u8>) -> int
    recommends
        all_digits(s),
    decreases s.len(),
{
    if s.len() == 0 {
        0
    } else {
        digits_val(s.drop_last()) * 10 + (s.last() - 48)
    }
}

/// Every byte is a decimal digit.
pub open spec fn all_digits(s: Seq<u8>) -> bool {
    forall|i: int| 0 <= i < s.len() ==> is_digit(s[i])
}

/// What parsing an unsigned 64-bit decimal from a byte string yields.
pub open spec fn parse_u64_spec(s: Seq<u8>) -> Option<u64> {
    if s.len() == 0 || !all_digits(s) || digits_val(s) > u64::MAX {
        None
    } else {
        Some(digits_val(s) as u64)
    }
}

proof fn lemma_digits_val_nonneg(s: Seq<u8>)
    requires
        all_digits(s),
    ensures
        digits_val(s) >= 0,
    decreases s.len(),
{
    if s.len() > 0 {
        assert(all_digits(s.drop_last()));
        lemma_digits_val_nonneg(s.drop_last());
    }
}

proof fn lemma_digits_val_prefix(s: Seq<u8>, i: int)
    requires
        all_digits(s),
        0 <= i <= s.len(),
    ensures
        digits_val(s.take(i)) <= digits_val(s),
    decreases s.len(),
{
    if i < s.len() {
        assert(all_digits(s.drop_last()));
        assert(s.take(i) =~= s.drop_last().take(i));
        lemma_digits_val_prefix(s.drop_last(), i);
        lemma_digits_val_nonneg(s.drop_last());
    } else {
        assert(s.take(i) =~= s);
    }
}

/// Parse an unsigned decimal integer; anything else, or a value that does
/// not fit, is rejected.
pub fn parse_u64(s: &[u8]) -> (r: Option<u64>)
    ensures
        r == parse_u64_spec(s@),
{
    if s.len() == 0 {
        return None;
    }
    let mut v: u64 = 0;
    let mut i: usize = 0;
    while i < s.len()
        invariant
            0 <= i <= s@.len(),
            all_digits(s@.take(i as int)),
            v as int == digits_val(s@.take(i as int)),
        decreases s@.len() - i,
    {
        let b = s[i];
        if b < 48 || b > 57 {
            assert(!is_digit(s@[i as int]));
            return None;
        }
        let d = (b - 48) as u64;
        proof {
            assert(s@.take(i as int).push(b) =~= s@.take(i as int + 1));
            assert(s@.take(i as int + 1).drop_last() =~= s@.take(i as int));
        }
        if v > 1844674407370955161u64 || (v == 1844674407370955161u64 && d > 5) {
            proof {
                if all_digits(s@) {
                    lemma_digits_val_prefix(s@, i as int + 1);
                }
            }
            return None;
        }
        v = v * 10 + d;
        i = i + 1;
    }
    proof {
        assert(s@.take(s@.len() as int) =~= s@);
    }
    Some(v)
}

/// The line with one trailing carriage return removed.
pub open spec fn trim_cr(s: Seq<u8>) -> Seq<u8> {
    if s.len() > 0 && s.last() == 13 {
        s.drop_last()
    } else {
        s
    }
}

/// What parsing the key record yields: the modulus from the first line and
/// the exponent from the third; the middle line is ignored.  A record with
/// fewer than three lines, a line that is not a decimal number, or a zero
/// modulus cannot be loaded.
pub open spec fn spec_parse_keys(b: Seq<u8>) -> Result<KeyPair, TokenError> {
    let lines = split_on(b, 10);
    if lines.len() < 3 {
        Err(TokenError::KeyLoadError)
    } else {
        match (parse_u64_spec(trim_cr(lines[0])), parse_u64_spec(trim_cr(lines[2]))) {
            (Some(n), Some(d)) => if n > 0 {
                Ok(KeyPair { modulus: n, exponent: d })
            } else {
                Err(TokenError::KeyLoadError)
            },
            _ => Err(TokenError::KeyLoadError),
        }
    }
}

/// Take the bytes of one line and strip a trailing carriage return.
fn line_slice<'a>(b: &'a [u8], start: usize, end: usize) -> (r: &'a [u8])
    requires
        start <= end <= b@.len(),
    ensures
        r@ == trim_cr(b@.subrange(start as int, end as int)),
{
    let line = vstd::slice::slice_subrange(b, start, end);
    if line.len() > 0 && line[line.len() - 1] == 13 {
        let r = vstd::slice::slice_subrange(line, 0, line.len() - 1);
        proof {
            assert(line@.drop_last() =~= line@.subrange(0, line@.len() - 1));
        }
        r
    } else {
        line
    }
}

/// Parse a key record read from the key store.
pub fn parse_keys(text: &str) -> (r: Result<KeyPair, TokenError>)
    ensures
        r == spec_parse_keys(text.spec_bytes()),
        r matches Ok(k) ==> k.wf(),
{
    let b = text.as_bytes();
    let n1 = find_byte(b, 0, 10);
    proof {
        if n1 == b@.len() {
            lemma_split_on_none(b@, 10);
        } else {
            assert(b@ =~= b@.subrange(0, n1 as int) + seq![10u8] + b@.subrange(
                n1 as int + 1,
                b@.len() as int,
            ));
            lemma_split_on_sep(
                b@.subrange(0, n1 as int),
                b@.subrange(n1 as int + 1, b@.len() as int),
                10,
            );
        }
    }
    if n1 == b.len() {
        return Err(TokenError::KeyLoadError);
    }
    let rest1_start = n1 + 1;
    let ghost rest1 = b@.subrange(rest1_start as int, b@.len() as int);
    let n2 = find_byte(b, rest1_start, 10);
    proof {
        if n2 == b@.len() {
            lemma_split_on_none(rest1, 10);
        } else {
            assert(rest1 =~= b@.subrange(rest1_start as int, n2 as int) + seq![10u8]
                + b@.subrange(n2 as int + 1, b@.len() as int));
            assert(forall|i: int|
                0 <= i < n2 - rest1_start ==> b@.subrange(rest1_start as int, n2 as int)[i] != 10);
            lemma_split_on_sep(
                b@.subrange(rest1_start as int, n2 as int),
                b@.subrange(n2 as int + 1, b@.len() as int),
                10,
            );
        }
    }
    if n2 == b.len() {
        return Err(TokenError::KeyLoadError);
    }
    let rest2_start = n2 + 1;
    let ghost rest2 = b@.subrange(rest2_start as int, b@.len() as int);
    let n3 = find_byte(b, rest2_start, 10);
    proof {
        lemma_split_on_len(rest2, 10);
        if n3 == b@.len() {
            lemma_split_on_none(rest2, 10);
        } else {
            assert(rest2 =~= b@.subrange(rest2_start as int, n3 as int) + seq![10u8]
                + b@.subrange(n3 as int + 1, b@.len() as int));
            assert(forall|i: int|
                0 <= i < n3 - rest2_start ==> b@.subrange(rest2_start as int, n3 as int)[i] != 10);
            lemma_split_on_sep(
                b@.subrange(rest2_start as int, n3 as int),
                b@.subrange(n3 as int + 1, b@.len() as int),
                10,
            );
        }
        let lines = split_on(b@, 10);
        assert(lines[0] == b@.subrange(0, n1 as int));
        assert(lines[2] == b@.subrange(rest2_start as int, n3 as int));
        assert(lines.len() >= 3);
    }
    let l0 = line_slice(b, 0, n1);
    let l2 = line_slice(b, rest2_start, n3);
    let n = match parse_u64(l0) {
        Some(n) => n,
        None => {
            return Err(TokenError::KeyLoadError);
        },
    };
    let d = match parse_u64(l2) {
        Some(d) => d,
        None => {
            return Err(TokenError::KeyLoadError);
        },
    };
    if n == 0 {
        return Err(TokenError::KeyLoadError);
    }
    Ok(KeyPair { modulus: n, exponent: d })
}

} // verus!
