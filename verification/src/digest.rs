//! SHA-256 and CRC-32.

use sha2::{Digest, Sha256};
use vstd::prelude::*;

verus! {

/// The SHA-256 digest of a byte string.
pub uninterp spec fn sha256(bytes: Seq<u8>) -> Seq<u8>;

/// The CRC-32 checksum of a byte string, as `crc32fast` computes it.
pub uninterp spec fn crc32(bytes: Seq<u8>) -> u32;

/// `sha2::Sha256::digest`: the digest of the bytes, which depends on nothing
/// else.
#[verifier::external_body]
pub(crate) fn sha256_digest(bytes: &[u8]) -> (digest: [u8; 32])
    ensures
        digest@ == sha256(bytes@),
{
    Sha256::digest(bytes).into()
}

/// `crc32fast::hash`: the checksum of the bytes, which depends on nothing
/// else.
#[verifier::external_body]
pub(crate) fn crc32_checksum(bytes: &[u8]) -> (checksum: u32)
    ensures
        checksum == crc32(bytes@),
{
    crc32fast::hash(bytes)
}

} // verus!
