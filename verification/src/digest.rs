//! The content digest used for image identifiers and block hashes.
//!
//! The digest itself is computed by the `blake2` crate; its value is
//! named by the uninterpreted function [`digest_of`], and everything the
//! logic concludes about block integrity is stated through that name.

use vstd::prelude::*;
use crate::types::Hash256;

verus! {

/// The BLAKE2b-256 digest of a byte sequence.  The result depends on the
/// bytes alone.
pub uninterp spec fn digest_of(data: Seq<u8>) -> Seq<u8>;

/// Relies on blake2's `Blake2b256` through `digest::Digest::digest`: a
/// pure function of the input bytes with a fixed 32-byte output.
#[verifier::external_body]
pub fn compute_digest(data: &Vec<u8>) -> (r: Hash256)
    ensures
        r@ == digest_of(data@),
        r.wf(),
{
    let out = <blake2::Blake2b256 as blake2::Digest>::digest(data.as_slice());
    Hash256 { bytes: out.to_vec() }
}

} // verus!
