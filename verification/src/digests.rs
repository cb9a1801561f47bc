//! The two digests the tools take from the RustCrypto crates.
use vstd::prelude::*;
use sha1::Digest;

verus! {

/// SHA-1 of a byte string, as the `sha1` crate computes it.
pub uninterp spec fn sha1_digest(data: Seq<u8>) -> Seq<u8>;

/// SHA-256 of a byte string, as the `sha2` crate computes it.
pub uninterp spec fn sha256_digest(data: Seq<u8>) -> Seq<u8>;

/// Calls `sha1::Sha1::digest`. Trusted to return the SHA-1 of `data`
/// (named `sha1_digest`), which is 20 bytes long.
#[verifier::external_body]
pub(crate) fn sha1_of(data: &[u8]) -> (d: Vec<u8>)
    ensures
        d@ == sha1_digest(data@),
        d@.len() == 20,
{
    sha1::Sha1::digest(data).to_vec()
}

/// Calls `sha2::Sha256::digest`. Trusted to return the SHA-256 of `data`
/// (named `sha256_digest`), which is 32 bytes long.
#[verifier::external_body]
pub(crate) fn sha256_of(data: &[u8]) -> (d: [u8; 32])
    ensures
        d@ == sha256_digest(data@),
{
    sha2::Sha256::digest(data).into()
}

} // verus!
