//! The record hash of the first file format, from the `xxhash-rust` crate.

use vstd::prelude::*;

verus! {

/// What `xxh64` makes of `data` and `seed`.
pub uninterp spec fn xxh64_of(data: Seq<u8>, seed: u64) -> u64;

/// `xxhash_rust::xxh64::xxh64`: the 64-bit hash of `data`. It depends on the
/// data and the seed alone; nothing more is claimed of it.
#[verifier::external_body]
pub(crate) fn xxh64(data: &[u8], seed: u64) -> (h: u64)
    ensures
        h == xxh64_of(data@, seed),
{
    xxhash_rust::xxh64::xxh64(data, seed)
}

} // verus!
