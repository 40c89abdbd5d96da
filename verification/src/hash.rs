//! The hash functions of the transcripts.
use sha2::Digest;
use vstd::prelude::*;

verus! {

/// The SHA-512 digest of a byte string.
pub uninterp spec fn sha512_digest(data: Seq<u8>) -> Seq<u8>;

/// The SHA-256 digest of a byte string.
pub uninterp spec fn sha256_digest(data: Seq<u8>) -> Seq<u8>;

/// `sha2::Sha512::digest`: the digest is a function of the bytes alone and is
/// sixty-four bytes long.
#[verifier::external_body]
pub(crate) fn sha512(data: &[u8]) -> (r: [u8; 64])
    ensures
        r@ == sha512_digest(data@),
{
    sha2::Sha512::digest(data).into()
}

/// `sha2::Sha256::digest`: the digest is a function of the bytes alone and is
/// thirty-two bytes long.
#[verifier::external_body]
pub(crate) fn sha256(data: &[u8]) -> (r: [u8; 32])
    ensures
        r@ == sha256_digest(data@),
{
    sha2::Sha256::digest(data).into()
}

} // verus!
