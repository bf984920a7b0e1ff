//! The sha2 boundary (trusted).
use sha2::{Digest, Sha256};
use vstd::prelude::*;

verus! {

/// The SHA-256 digest of `bytes`.
pub uninterp spec fn sha256_of(bytes: Seq<u8>) -> Seq<u8>;

/// sha2 `Sha256::digest`, copied into a `Vec`. Trusted: the result is the
/// named `sha256_of` of the bytes and has 32 bytes (`OutputSize` is `U32`).
#[verifier::external_body]
pub(crate) fn sha256(bytes: &[u8]) -> (r: Vec<u8>)
    ensures
        r@ == sha256_of(bytes@),
        r@.len() == 32,
{
    Sha256::digest(bytes).to_vec()
}

} // verus!
