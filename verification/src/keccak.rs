//! The 256-bit hash primitive. The protocol treats it as a black box: an
//! arbitrary-length byte string goes in, a 32-byte digest comes out, and the
//! digest depends on the input bytes alone.
use vstd::prelude::*;

verus! {

/// The digest as a pure function of the input bytes. Nothing more is assumed
/// of it; in particular no two inputs are known (or knowable, here) to collide
/// or not to collide.
pub uninterp spec fn digest_of(bytes: Seq<u8>) -> Seq<u8>;

/// Relies on `sha3::Keccak256` (through `digest::Digest::digest`): a
/// deterministic 32-byte Keccak-256 digest of the input bytes.
#[verifier::external_body]
pub fn keccak256(bytes: &[u8]) -> (r: [u8; 32])
    ensures
        r@ == digest_of(bytes@),
{
    let digest = <sha3::Keccak256 as sha3::Digest>::digest(bytes);
    digest.into()
}

} // verus!
