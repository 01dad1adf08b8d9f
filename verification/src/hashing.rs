//! The table's one fixed hashing strategy: std's default hasher, fed the
//! key's little-endian bytes. The digest is opaque, but it is a fixed
//! function of the key, which is all the probing proofs rely on.

use std::collections::hash_map::DefaultHasher;
use std::hash::Hasher;
use vstd::bytes::{spec_u64_to_le_bytes, u64_to_le_bytes};
use vstd::prelude::*;
use vstd::std_specs::hash::DefaultHasherAdditionalSpecFns;

verus! {

/// The hash of a key: the digest the default hasher yields after one write
/// holding the key's eight little-endian bytes.
pub closed spec fn hash_of(key: u64) -> u64 {
    DefaultHasher::spec_finish(seq![spec_u64_to_le_bytes(key)])
}

/// Computes `hash_of(key)` with std's default hasher.
pub(crate) fn calculate_hash(key: u64) -> (digest: u64)
    ensures
        digest == hash_of(key),
{
    let mut hasher = DefaultHasher::new();
    let bytes = u64_to_le_bytes(key);
    hasher.write(bytes.as_slice());
    hasher.finish()
}

} // verus!
