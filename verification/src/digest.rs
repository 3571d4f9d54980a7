//! The two hash functions the ledger relies on.

use sha2::Digest;
use vstd::prelude::*;

verus! {

/// The SHA-256 digest of a byte string.
pub uninterp spec fn sha256(data: Seq<u8>) -> Seq<u8>;

/// The RIPEMD-160 digest of a byte string.
pub uninterp spec fn ripemd160(data: Seq<u8>) -> Seq<u8>;

/// Number of bytes in a SHA-256 digest.
pub const SHA256_LEN: usize = 32;

/// Number of bytes in a RIPEMD-160 digest.
pub const RIPEMD160_LEN: usize = 20;

/// Calls `sha2::Sha256::digest`. Trusted: the result is the SHA-256 digest of
/// `data`, which is always 32 bytes long.
#[verifier::external_body]
pub(crate) fn sha256_digest(data: &[u8]) -> (out: Vec<u8>)
    ensures
        out@ == sha256(data@),
        out@.len() == SHA256_LEN,
{
    sha2::Sha256::digest(data).to_vec()
}

/// Calls `ripemd::Ripemd160::digest`. Trusted: the result is the RIPEMD-160
/// digest of `data`, which is always 20 bytes long.
#[verifier::external_body]
pub(crate) fn ripemd160_digest(data: &[u8]) -> (out: Vec<u8>)
    ensures
        out@ == ripemd160(data@),
        out@.len() == RIPEMD160_LEN,
{
    ripemd::Ripemd160::digest(data).to_vec()
}

} // verus!
