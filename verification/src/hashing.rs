//! Content addressing: SHA-256 digests of raw bytes.

use vstd::prelude::*;

verus! {

/// The SHA-256 digest of a byte sequence. The digest is a pure function of
/// the input bytes; its value is not stated here, only named.
pub uninterp spec fn sha256_of(data: Seq<u8>) -> Seq<u8>;

/// Relies on sha2::Sha256 (the `Digest::digest` entry point): the digest is
/// 32 bytes long and depends on the input bytes alone.
#[verifier::external_body]
pub(crate) fn sha256(data: &[u8]) -> (r: Vec<u8>)
    ensures
        r@ == sha256_of(data@),
        r@.len() == 32,
{
    <sha2::Sha256 as sha2::Digest>::digest(data).to_vec()
}

/// The 32-byte digest that identifies a file's content: a pure function of
/// the bytes, so identical content always receives the identical hash.
pub fn hash_full_file(data: &[u8]) -> (r: Vec<u8>)
    ensures
        r@ == sha256_of(data@),
        r@.len() == 32,
{
    sha256(data)
}

} // verus!
