//! Byte-string keys and their lexicographic order.
//!
//! Every container maps immutable byte strings to values. The ordered
//! containers compare keys lexicographically on raw bytes; this module holds
//! the specification of that order, the executable three-way comparison, and
//! the proofs that the order is total.

use vstd::prelude::*;

verus! {

use vstd::string::StringSliceAdditionalSpecFns;

/// Result of a three-way key comparison.
pub enum KeyOrder {
    Less,
    Equal,
    Greater,
}

/// Strict lexicographic order on byte strings: `a` comes before `b` when at
/// the first differing position `a` has the smaller byte, or when `a` is a
/// proper prefix of `b`.
pub open spec fn lex_lt(a: Seq<u8>, b: Seq<u8>) -> bool
    decreases a.len(),
{
    if b.len() == 0 {
        false
    } else if a.len() == 0 {
        true
    } else if a[0] < b[0] {
        true
    } else if a[0] > b[0] {
        false
    } else {
        lex_lt(a.skip(1), b.skip(1))
    }
}

/// Exactly one of `lex_lt(a, b)`, `a == b`, `lex_lt(b, a)` holds.
pub proof fn lemma_lex_lt_trichotomy(a: Seq<u8>, b: Seq<u8>)
    ensures
        lex_lt(a, b) || lex_lt(b, a) || a == b,
        lex_lt(a, b) ==> !lex_lt(b, a),
        lex_lt(a, b) ==> a != b,
        lex_lt(b, a) ==> a != b,
    decreases a.len(),
{
    if a.len() == 0 || b.len() == 0 {
        if a.len() == 0 && b.len() == 0 {
            assert(a =~= b);
        }
    } else {
        if a[0] == b[0] {
            lemma_lex_lt_trichotomy(a.skip(1), b.skip(1));
            if a.skip(1) == b.skip(1) {
                assert(a =~= b) by {
                    assert(forall|i: int|
                        1 <= i < a.len() ==> a[i] == a.skip(1)[i - 1] && b[i] == b.skip(1)[i - 1]);
                }
            }
            if a == b {
                assert(a.skip(1) =~= b.skip(1));
            }
        } else {
            if a == b {
                assert(a[0] == b[0]);
            }
        }
    }
}

/// The lexicographic order is transitive.
pub proof fn lemma_lex_lt_transitive(a: Seq<u8>, b: Seq<u8>, c: Seq<u8>)
    requires
        lex_lt(a, b),
        lex_lt(b, c),
    ensures
        lex_lt(a, c),
    decreases a.len(),
{
    if a.len() == 0 || b.len() == 0 || c.len() == 0 {
    } else {
        if a[0] == b[0] && b[0] == c[0] {
            lemma_lex_lt_transitive(a.skip(1), b.skip(1), c.skip(1));
        }
    }
}

/// No byte string is below itself.
pub proof fn lemma_lex_lt_irreflexive(a: Seq<u8>)
    ensures
        !lex_lt(a, a),
    decreases a.len(),
{
    if a.len() > 0 {
        lemma_lex_lt_irreflexive(a.skip(1));
    }
}

/// Three-way comparison of two byte-string keys, agreeing with `lex_lt`.
pub fn key_cmp(a: &Vec<u8>, b: &Vec<u8>) -> (o: KeyOrder)
    ensures
        o is Less <==> lex_lt(a@, b@),
        o is Greater <==> lex_lt(b@, a@),
        o is Equal <==> a@ == b@,
{
    proof {
        lemma_lex_lt_trichotomy(a@, b@);
        assert(a@.skip(0) =~= a@);
        assert(b@.skip(0) =~= b@);
    }
    let mut i: usize = 0;
    while i < a.len() && i < b.len()
        invariant
            i <= a.len(),
            i <= b.len(),
            lex_lt(a@, b@) == lex_lt(a@.skip(i as int), b@.skip(i as int)),
            lex_lt(b@, a@) == lex_lt(b@.skip(i as int), a@.skip(i as int)),
            (a@ == b@) == (a@.skip(i as int) =~= b@.skip(i as int)),
        decreases a.len() - i,
    {
        let x = a[i];
        let y = b[i];
        proof {
            assert(a@.skip(i as int)[0] == x);
            assert(b@.skip(i as int)[0] == y);
            assert(a@.skip(i as int).skip(1) =~= a@.skip(i + 1));
            assert(b@.skip(i as int).skip(1) =~= b@.skip(i + 1));
        }
        if x < y {
            return KeyOrder::Less;
        }
        if x > y {
            return KeyOrder::Greater;
        }
        proof {
            assert((a@.skip(i as int) =~= b@.skip(i as int)) == (a@.skip(i + 1) =~= b@.skip(
                i + 1,
            ))) by {
                if a@.skip(i + 1) =~= b@.skip(i + 1) && a@.skip(i as int).len() == b@.skip(
                    i as int,
                ).len() {
                    assert forall|j: int| 0 <= j < a@.skip(i as int).len() implies a@.skip(
                        i as int,
                    )[j] == b@.skip(i as int)[j] by {
                        if j >= 1 {
                            assert(a@.skip(i as int)[j] == a@.skip(i + 1)[j - 1]);
                            assert(b@.skip(i as int)[j] == b@.skip(i + 1)[j - 1]);
                        }
                    }
                }
            }
        }
        i = i + 1;
    }
    proof {
        assert(a@.skip(i as int).len() == a@.len() - i);
        assert(b@.skip(i as int).len() == b@.len() - i);
    }
    if a.len() < b.len() {
        KeyOrder::Less
    } else if a.len() > b.len() {
        KeyOrder::Greater
    } else {
        proof {
            assert(a@.skip(i as int) =~= b@.skip(i as int));
        }
        KeyOrder::Equal
    }
}

/// An owned copy of a key's bytes.
pub fn clone_key(v: &Vec<u8>) -> (r: Vec<u8>)
    ensures
        r@ == v@,
{
    let mut r: Vec<u8> = Vec::new();
    let mut i: usize = 0;
    while i < v.len()
        invariant
            i <= v.len(),
            r@ =~= v@.take(i as int),
        decreases v.len() - i,
    {
        r.push(v[i]);
        i = i + 1;
    }
    proof {
        assert(v@.take(v@.len() as int) =~= v@);
    }
    r
}

/// The key bytes of a UTF-8 string, as the containers store them.
pub fn str_key(s: &str) -> (k: Vec<u8>)
    ensures
        k@ == s.spec_bytes(),
{
    let bytes = s.as_bytes();
    vstd::slice::slice_to_vec(bytes)
}

} // verus!
