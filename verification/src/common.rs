//! A 64-bit content hash split into two unsigned 32-bit halves, so that it
//! survives text-oriented transports whose number type loses integer
//! precision above 53 bits.

use vstd::prelude::*;

verus! {

/// A 64-bit content hash carried as `(low half, high half)`.
#[derive(Debug, Clone, Copy, PartialEq, Eq, Structural, Hash)]
pub struct JsSafeHash(pub u32, pub u32);

impl JsSafeHash {
    /// The 64-bit value this pair stands for.
    pub open spec fn spec_u64(self) -> u64 {
        ((self.1 as u64) << 32) | (self.0 as u64)
    }

    /// Split a 64-bit hash into its two halves.
    pub fn from_u64(hash: u64) -> (r: Self)
        ensures
            r.spec_u64() == hash,
            r.0 == hash as u32,
            r.1 == (hash >> 32) as u32,
    {
        let hash_upper: u32 = (hash >> 32) as u32;
        let hash_lower: u32 = hash as u32;
        proof {
            assert((((hash >> 32) as u32 as u64) << 32) | (hash as u32 as u64) == hash)
                by (bit_vector);
        }
        JsSafeHash(hash_lower, hash_upper)
    }

    /// Reassemble the 64-bit hash from the two halves.
    pub fn hash_u64(&self) -> (r: u64)
        ensures
            r == self.spec_u64(),
    {
        ((self.1 as u64) << 32) | (self.0 as u64)
    }
}

/// Splitting a hash and reassembling it gives the hash back.
pub proof fn lemma_hash_split_round_trip(hash: u64)
    ensures
        JsSafeHash(hash as u32, (hash >> 32) as u32).spec_u64() == hash,
{
    assert((((hash >> 32) as u32 as u64) << 32) | (hash as u32 as u64) == hash)
        by (bit_vector);
}

/// Reassembling the halves and splitting again gives the halves back.
pub proof fn lemma_hash_join_round_trip(h: JsSafeHash)
    ensures
        h.spec_u64() as u32 == h.0,
        (h.spec_u64() >> 32) as u32 == h.1,
{
    let lo = h.0;
    let hi = h.1;
    assert(((((hi as u64) << 32) | (lo as u64)) as u32) == lo) by (bit_vector);
    assert((((((hi as u64) << 32) | (lo as u64)) >> 32) as u32) == hi) by (bit_vector);
}

} // verus!
