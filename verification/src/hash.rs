//! The 64-bit hash over a string's bytes that the large tier and shard
//! selection rely on. The hash is seeded with a constant fixed for this
//! build, so it is deterministic within a process.

use vstd::prelude::*;

verus! {

use vstd::string::StringSliceAdditionalSpecFns;

/// Seed for the string hash, fixed at build time.
pub const HASH_SEED: u64 = 0x9ae1_6a3b_2f90_404f;

/// The 64-bit CityHash of a byte sequence under a seed. The value is a pure
/// function of the bytes and the seed; nothing further is assumed of it.
pub uninterp spec fn city_hash64(bytes: Seq<u8>, seed: u64) -> u64;

/// Relies on `cityhasher::hash_with_seed::<u64>`: the seeded 64-bit CityHash
/// of the input bytes, computed from the bytes and the seed alone.
#[verifier::external_body]
fn city_hash64_with_seed(data: &[u8], seed: u64) -> (r: u64)
    ensures
        r == city_hash64(data@, seed),
{
    cityhasher::hash_with_seed(data, seed)
}

/// The hash that this build gives to a string's bytes.
pub open spec fn hash_of(bytes: Seq<u8>) -> u64 {
    city_hash64(bytes, HASH_SEED)
}

/// Hashes a string's bytes with this build's seed.
pub fn hash_str(string: &str) -> (r: u64)
    ensures
        r == hash_of(string.spec_bytes()),
{
    city_hash64_with_seed(string.as_bytes(), HASH_SEED)
}

} // verus!
