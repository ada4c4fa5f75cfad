//! The SHA-2 digests, as the `sha2` crate computes them.

use vstd::prelude::*;

verus! {

/// SHA-256 of some bytes.
pub uninterp spec fn sha256(data: Seq<u8>) -> Seq<u8>;

/// SHA-384 of some bytes.
pub uninterp spec fn sha384(data: Seq<u8>) -> Seq<u8>;

/// SHA-512 of some bytes.
pub uninterp spec fn sha512(data: Seq<u8>) -> Seq<u8>;

/// `sha2::Sha256::digest`: the 32-byte SHA-256 digest of the data. The
/// contract names the digest and gives its length, nothing more.
#[verifier::external_body]
pub fn sha256_of(data: &[u8]) -> (r: Vec<u8>)
    ensures
        r@ == sha256(data@),
        r@.len() == 32,
{
    <sha2::Sha256 as sha2::Digest>::digest(data).to_vec()
}

/// `sha2::Sha384::digest`: the 48-byte SHA-384 digest of the data.
#[verifier::external_body]
pub fn sha384_of(data: &[u8]) -> (r: Vec<u8>)
    ensures
        r@ == sha384(data@),
        r@.len() == 48,
{
    <sha2::Sha384 as sha2::Digest>::digest(data).to_vec()
}

/// `sha2::Sha512::digest`: the 64-byte SHA-512 digest of the data.
#[verifier::external_body]
pub fn sha512_of(data: &[u8]) -> (r: Vec<u8>)
    ensures
        r@ == sha512(data@),
        r@.len() == 64,
{
    <sha2::Sha512 as sha2::Digest>::digest(data).to_vec()
}

} // verus!
