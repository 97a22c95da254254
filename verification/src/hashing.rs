//! The content-addressed hash behind integrity and verification hashes.
//!
//! The digest itself is computed by an outside library; this module gives its
//! result a name, so that contracts can state exactly which bytes were hashed
//! while assuming nothing about the digest's value.

use vstd::prelude::*;

verus! {

/// The 256-bit Blake2b digest of a byte string, as the outside hash library
/// computes it: a function of the bytes alone.
pub uninterp spec fn blake2b256_of(data: Seq<u8>) -> Seq<u8>;

/// Relies on `sp_core_hashing::blake2_256`: the 32-byte Blake2b-256 digest of
/// the input, depending on the input bytes alone.
#[verifier::external_body]
pub(crate) fn blake2b256(data: &Vec<u8>) -> (r: Vec<u8>)
    ensures
        r@ == blake2b256_of(data@),
        r@.len() == 32,
{
    sp_core_hashing::blake2_256(data.as_slice()).to_vec()
}

} // verus!
