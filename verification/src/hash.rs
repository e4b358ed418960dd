//! The digest functions that the protocol is built on.

use vstd::prelude::*;

verus! {

/// The BLAKE3 digest of a byte sequence, as `blake3::hash` computes it.
pub uninterp spec fn blake3_block(data: Seq<u8>) -> [u8; 32];

/// The bytes of the BLAKE3 digest of a byte sequence.
pub open spec fn blake3_digest(data: Seq<u8>) -> Seq<u8> {
    blake3_block(data)@
}

/// The 64-byte BLAKE2b digest of a byte sequence, as `blake2b_simd::blake2b` computes it.
pub uninterp spec fn blake2b_digest(data: Seq<u8>) -> Seq<u8>;

/// The 32-byte BLAKE2b digest of a byte sequence, as `blake2b_simd::Params::hash` computes it with
/// a hash length of 32. It is not a part of the 64-byte one.
pub uninterp spec fn blake2b256_digest(data: Seq<u8>) -> Seq<u8>;

/// The BLAKE3 digest of `bytes`.
///
/// Calls `blake3::hash` in its unkeyed form with its default output of 32 bytes. What is relied
/// on is that the digest is a function of the bytes alone.
#[verifier::external_body]
pub fn blake(bytes: &[u8]) -> (digest: [u8; 32])
    ensures
        digest == blake3_block(bytes@),
{
    *blake3::hash(bytes).as_bytes()
}

/// The BLAKE2b digest of `bytes`.
///
/// Calls `blake2b_simd::blake2b`, which hashes with the default parameters: no key, no salt and
/// an output of 64 bytes. What is relied on is that length, and that the digest is a function
/// of the bytes alone.
#[verifier::external_body]
pub(crate) fn blake2b(bytes: &[u8]) -> (digest: Vec<u8>)
    ensures
        digest@ == blake2b_digest(bytes@),
        digest@.len() == 64,
{
    blake2b_simd::blake2b(bytes).as_bytes().to_vec()
}

/// The BLAKE2b-256 digest of `bytes`.
///
/// Calls `blake2b_simd::Params::hash` with the default parameters but for `hash_length`, which is
/// set to 32. What is relied on is that length, and that the digest is a function of the bytes
/// alone.
#[verifier::external_body]
pub(crate) fn blake2b256(bytes: &[u8]) -> (digest: Vec<u8>)
    ensures
        digest@ == blake2b256_digest(bytes@),
        digest@.len() == 32,
{
    blake2b_simd::Params::new().hash_length(32).hash(bytes).as_bytes().to_vec()
}

} // verus!
