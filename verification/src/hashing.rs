//! The 64-bit fast content hash used for asset deduplication, per-asset
//! integrity checks and the footer's directory hash.
//!
//! The hash itself is computed by an outside crate; this module gives its
//! result a name, `xxh3_of`, so that contracts elsewhere can state exactly
//! "this field holds the hash of those bytes" without restating the
//! algorithm. Nothing is assumed about the value beyond being a function of
//! the input bytes alone.

use vstd::prelude::*;

verus! {

/// The 64-bit digest that the unseeded XXH3 hash assigns to `data`.
pub uninterp spec fn xxh3_of(data: Seq<u8>) -> u64;

/// Relies on `xxhash_rust::xxh3::xxh3_64`: the unseeded, default-secret
/// 64-bit XXH3 digest, a pure function of the input bytes.
#[verifier::external_body]
pub fn xxh3_hash(data: &[u8]) -> (r: u64)
    ensures
        r == xxh3_of(data@),
{
    xxhash_rust::xxh3::xxh3_64(data)
}

} // verus!
