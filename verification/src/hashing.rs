//! Hashing with std's `DefaultHasher`, as the engine uses it for event ids, structural hashes,
//! span fingerprints and node weights.

use std::collections::hash_map::DefaultHasher;
use std::hash::{BuildHasher, BuildHasherDefault};
use vstd::prelude::*;

verus! {

/// What std's `DefaultHasher` (created by `DefaultHasher::new()`) returns from `finish` after
/// hashing the string `s`.
pub uninterp spec fn default_str_hash(s: Seq<char>) -> u64;

/// Calls `BuildHasher::hash_one` on a default-built `DefaultHasher`, which is the same as
/// `DefaultHasher::new()`, `s.hash(&mut h)`, `h.finish()`.
/// Claimed: the result is `default_str_hash(s@)`. std documents that every `DefaultHasher`
/// created by `new` or `default` is the same hasher, so the result depends on the string alone.
#[verifier::external_body]
pub(crate) fn hash_str(s: &str) -> (h: u64)
    ensures
        h == default_str_hash(s@),
{
    BuildHasherDefault::<DefaultHasher>::default().hash_one(s)
}

} // verus!
