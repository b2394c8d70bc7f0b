//! The 32-bit FNV-1a hash.

use vstd::prelude::*;
use std::hash::{Hasher, BuildHasher};

verus! {

/// The multiplier of the 32-bit hash.
pub const FNV_PRIME: u32 = 0x01000193;

/// The state that every 32-bit hash starts from.
pub const FNV_OFFSET_BASIS: u32 = 0x811c9dc5;

/// The hash state after `bytes` have gone into a state of `hash`: each
/// byte is xor-ed into the state, which is then multiplied by the prime,
/// modulo 2^32.
pub open spec fn fnv1a(hash: u32, bytes: Seq<u8>) -> u32
    decreases bytes.len(),
{
    if bytes.len() == 0 {
        hash
    } else {
        (fnv1a(hash, bytes.drop_last()) ^ (bytes.last() as u32)).wrapping_mul(FNV_PRIME)
    }
}

/// Hashing in two parts is hashing the whole.
pub proof fn lemma_fnv1a_concat(hash: u32, a: Seq<u8>, b: Seq<u8>)
    ensures
        fnv1a(hash, a + b) == fnv1a(fnv1a(hash, a), b),
    decreases b.len(),
{
    if b.len() == 0 {
        assert(a + b =~= a);
    } else {
        lemma_fnv1a_concat(hash, a, b.drop_last());
        assert((a + b).drop_last() =~= a + b.drop_last());
    }
}

/// A running FNV-1a hash.
pub struct FNV1a {
    hash: u32,
}

impl FNV1a {
    /// The hash state.
    pub closed spec fn state(&self) -> u32 {
        self.hash
    }

    /// A hasher that has seen no bytes.
    pub fn new() -> (h: Self)
        ensures
            h.state() == FNV_OFFSET_BASIS,
    {
        FNV1a { hash: FNV_OFFSET_BASIS }
    }
}

impl Hasher for FNV1a {
    /// The hash of the bytes written so far.
    fn finish(&self) -> (digest: u64)
        ensures
            digest == self.state(),
    {
        self.hash as u64
    }

    /// Takes `bytes` into the hash.
    fn write(&mut self, bytes: &[u8])
        ensures
            final(self).state() == fnv1a(old(self).state(), bytes@),
    {
        let mut i: usize = 0;
        while i < bytes.len()
            invariant
                i <= bytes.len(),
                self.hash == fnv1a(old(self).hash, bytes@.take(i as int)),
            decreases bytes.len() - i,
        {
            proof {
                assert(bytes@.take(i + 1).drop_last() =~= bytes@.take(i as int));
            }
            self.hash = self.hash ^ (bytes[i] as u32);
            self.hash = self.hash.wrapping_mul(FNV_PRIME);
            i += 1;
        }
        proof {
            assert(bytes@.take(i as int) =~= bytes@);
        }
    }
}

/// Builds FNV-1a hashers, each starting from the offset basis.
pub struct FNV1aBuilder;

impl BuildHasher for FNV1aBuilder {
    type Hasher = FNV1a;

    /// A hasher that has seen no bytes.
    fn build_hasher(&self) -> (h: FNV1a)
        ensures
            h.state() == FNV_OFFSET_BASIS,
    {
        FNV1a::new()
    }
}

} // verus!
