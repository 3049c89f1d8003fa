//! The hash function shared by both hash containers.
//!
//! Keys are hashed with the standard library's `DefaultHasher` (a SipHash
//! variant): a good general-purpose, non-adversarial hash with uniform
//! distribution over 64 bits. `vstd` models the hasher's state and leaves the
//! final digest uninterpreted, so the digest of a key is a fixed but unknown
//! function of its bytes.

use vstd::prelude::*;

verus! {

use std::collections::hash_map::DefaultHasher;
use std::hash::Hasher;
use vstd::std_specs::hash::DefaultHasherAdditionalSpecFns;

/// The 64-bit hash of a byte-string key.
pub open spec fn hash_of(k: Seq<u8>) -> u64 {
    DefaultHasher::spec_finish(seq![k])
}

/// Hash a key with `DefaultHasher`.
pub fn hash_key(k: &Vec<u8>) -> (h: u64)
    ensures
        h == hash_of(k@),
{
    let mut hasher = DefaultHasher::new();
    hasher.write(k.as_slice());
    let h = hasher.finish();
    proof {
        assert(hasher@ =~= seq![k@]);
    }
    h
}

} // verus!
