//! Salted bucketing: a key and a salt are concatenated and hashed, and the
//! 64-bit digest is reduced modulo [`BUCKET_SIZE`](crate::BUCKET_SIZE).
//!
//! The digest is part of the wire contract: bucketing decisions are
//! observable to callers over time, so both the hash function and the
//! concatenation order (key first, salt second, no separator) are fixed.

use vstd::prelude::*;
use crate::BUCKET_SIZE;

verus! {

/// The 64-bit digest that `xxhash_rust::xxh3::xxh3_64` computes for the
/// UTF-8 encoding of this character sequence. The digest is a pure function
/// of its input: the library states nothing else about it.
pub uninterp spec fn xxh3_of_chars(s: Seq<char>) -> u64;

/// Relies on `xxhash_rust::xxh3::xxh3_64`: the digest depends on the input
/// bytes alone (fixed default secret, seed zero), and the input here is the
/// UTF-8 encoding of `key` followed by `salt`.
#[verifier::external_body]
fn xxh3_digest(key: &str, salt: &str) -> (r: u64)
    ensures
        r == xxh3_of_chars(key@ + salt@),
{
    let mut combined = String::with_capacity(key.len() + salt.len());
    combined.push_str(key);
    combined.push_str(salt);
    xxhash_rust::xxh3::xxh3_64(combined.as_bytes())
}

/// The bucket that a key falls into under a salt: the salted digest reduced
/// modulo `BUCKET_SIZE`.
pub open spec fn bucket_of(key: Seq<char>, salt: Seq<char>) -> u32 {
    (xxh3_of_chars(key + salt) % (BUCKET_SIZE as u64)) as u32
}

/// Hash a key with a salt to a bucket index. Total: every input maps to a
/// bucket strictly below `BUCKET_SIZE`, and the result depends on the two
/// strings alone.
pub fn hash_to_bucket(key: &str, salt: &str) -> (r: u32)
    ensures
        r < BUCKET_SIZE,
        r == bucket_of(key@, salt@),
{
    let h = xxh3_digest(key, salt);
    (h % (BUCKET_SIZE as u64)) as u32
}

/// Same as [`hash_to_bucket`]; kept under the older name so callers written
/// against it keep working.
pub fn hash_to_bucket_with_salt(key: &str, salt: &str) -> (r: u32)
    ensures
        r < BUCKET_SIZE,
        r == bucket_of(key@, salt@),
{
    hash_to_bucket(key, salt)
}

} // verus!
