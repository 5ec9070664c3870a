//! Splitting byte strings on a separator byte.

use vstd::prelude::*;

verus! {

/// The pieces of `s` between occurrences of `sep`, in order.  A string
/// without the separator is one piece; every separator adds a piece.
pub open spec fn split_on(s: Seq<u8>, sep: u8) -> Seq<Seq<u8>>
    decreases s.len(),
{
    if s.len() == 0 {
        seq![Seq::<u8>::empty()]
    } else if s[0] == sep {
        seq![Seq::<u8>::empty()] + split_on(s.drop_first(), sep)
    } else {
        let rest = split_on(s.drop_first(), sep);
        seq![seq![s[0]] + rest[0]] + rest.skip(1)
    }
}

/// Splitting yields at least one piece.
pub proof fn lemma_split_on_len(s: Seq<u8>, sep: u8)
    ensures
        split_on(s, sep).len() >= 1,
    decreases s.len(),
{
    if s.len() > 0 {
        lemma_split_on_len(s.drop_first(), sep);
    }
}

/// A string without the separator is its own single piece.
pub proof fn lemma_split_on_none(s: Seq<u8>, sep: u8)
    requires
        forall|i: int| 0 <= i < s.len() ==> s[i] != sep,
    ensures
        split_on(s, sep) == seq![s],
    decreases s.len(),
{
    if s.len() == 0 {
        assert(split_on(s, sep) =~~= seq![s]);
    } else {
        lemma_split_on_none(s.drop_first(), sep);
        lemma_split_on_len(s.drop_first(), sep);
        let rest = split_on(s.drop_first(), sep);
        assert(seq![s[0]] + rest[0] =~= s);
        assert(split_on(s, sep) =~~= seq![s]);
    }
}

/// Splitting at the first separator: a separator-free prefix is the first
/// piece, and the rest splits on its own.
pub proof fn lemma_split_on_sep(a: Seq<u8>, b: Seq<u8>, sep: u8)
    requires
        forall|i: int| 0 <= i < a.len() ==> a[i] != sep,
    ensures
        split_on(a + seq![sep] + b, sep) == seq![a] + split_on(b, sep),
    decreases a.len(),
{
    let s = a + seq![sep] + b;
    if a.len() == 0 {
        assert(s[0] == sep);
        assert(s.drop_first() =~= b);
        assert(a =~= Seq::<u8>::empty());
        assert(split_on(s, sep) =~~= seq![a] + split_on(b, sep));
    } else {
        assert(s[0] == a[0]);
        assert(s.drop_first() =~= a.drop_first() + seq![sep] + b);
        lemma_split_on_sep(a.drop_first(), b, sep);
        lemma_split_on_len(b, sep);
        let rest = split_on(s.drop_first(), sep);
        assert(rest[0] == a.drop_first());
        assert(seq![s[0]] + rest[0] =~= a);
        assert(rest.skip(1) =~= split_on(b, sep));
        assert(split_on(s, sep) =~~= seq![a] + split_on(b, sep));
    }
}

/// Find the first occurrence of `x` at or after `from`, or the length when
/// there is none.
pub fn find_byte(s: &[u8], from: usize, x: u8) -> (r: usize)
    requires
        from <= s@.len(),
    ensures
        from <= r <= s@.len(),
        forall|k: int| from <= k < r ==> s@[k] != x,
        r < s@.len() ==> s@[r as int] == x,
{
    let mut i: usize = from;
    while i < s.len()
        invariant
            from <= i <= s@.len(),
            forall|k: int| from <= k < i ==> s@[k] != x,
        decreases s@.len() - i,
    {
        if s[i] == x {
            return i;
        }
        i = i + 1;
    }
    i
}

} // verus!
