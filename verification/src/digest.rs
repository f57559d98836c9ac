//! SHA-1, from the `sha1` crate.

use vstd::prelude::*;
use sha1::{Digest, Sha1};

verus! {

/// The SHA-1 digest of `data`, as the `sha1` crate computes it.
pub uninterp spec fn sha1_of(data: Seq<u8>) -> Seq<u8>;

/// `Sha1::digest`: the twenty-byte SHA-1 digest of `data`. What the digest is on given bytes is
/// left to the crate; equal bytes have equal digests.
#[verifier::external_body]
pub(crate) fn sha1_digest(data: &[u8]) -> (digest: [u8; 20])
    ensures
        digest@ == sha1_of(data@),
{
    Sha1::digest(data).into()
}

} // verus!
