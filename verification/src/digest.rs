//! SHA-256 digests.

use vstd::prelude::*;

verus! {

/// The SHA-256 digest of a byte string.
pub uninterp spec fn sha256_of(bytes: Seq<u8>) -> [u8; 32];

/// `sha2::Sha256::digest`: the 32-byte SHA-256 digest of `bytes`, a function of `bytes` alone.
#[verifier::external_body]
pub(crate) fn sha256(bytes: &[u8]) -> (digest: [u8; 32])
    ensures
        digest == sha256_of(bytes@),
{
    <[u8; 32]>::from(<sha2::Sha256 as sha2::Digest>::digest(bytes))
}

/// The digest as lowercase hex.
pub open spec fn sha256_hex_of(bytes: Seq<u8>) -> Seq<char> {
    crate::text::hex_text(sha256_of(bytes)@)
}

/// Lowercase hex of the SHA-256 digest.
pub fn sha256_hex(bytes: &[u8]) -> (text: String)
    ensures
        text@ == sha256_hex_of(bytes@),
{
    let digest = sha256(bytes);
    crate::text::hex(vstd::array::array_as_slice(&digest))
}

/// `bytes` hash to `expected`.
pub fn hash_matches(bytes: &[u8], expected: &[u8; 32]) -> (same: bool)
    ensures
        same == (sha256_of(bytes@)@ == expected@),
{
    let digest = sha256(bytes);
    crate::text::bytes_eq(
        vstd::array::array_as_slice(&digest),
        vstd::array::array_as_slice(expected),
    )
}

/// `bytes` hash to what `expected` spells in hex.
pub fn hash_text_matches(bytes: &[u8], expected: &str) -> (same: bool)
    ensures
        same == (sha256_hex_of(bytes@) == expected@),
{
    crate::text::text_eq(sha256_hex(bytes).as_str(), expected)
}

} // verus!
