//! The cryptographic digest used by the Merkelized indexes.

use vstd::prelude::*;

verus! {

/// The number of bytes in a SHA-256 digest.
pub const HASH_LEN: usize = 32;

/// The SHA-256 digest of a byte string, as an abstract function: the digest
/// is fully determined by the input bytes, and nothing further is assumed
/// about its value.
pub uninterp spec fn hash_of(data: Seq<u8>) -> Seq<u8>;

/// Relies on sha2::Sha256: a pure function of the input bytes whose digest
/// is exactly 32 bytes long.
#[verifier::external_body]
pub fn sha256(data: &[u8]) -> (r: Vec<u8>)
    ensures
        r@ == hash_of(data@),
        r@.len() == HASH_LEN,
{
    <sha2::Sha256 as sha2::Digest>::digest(data).to_vec()
}

} // verus!
