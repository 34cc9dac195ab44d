//! The digest under which a password is stored.

use sha1::{Digest, Sha1};
use vstd::prelude::*;

verus! {

/// The SHA-1 digest of a sequence of bytes.
pub uninterp spec fn sha1_digest(data: Seq<u8>) -> Seq<u8>;

/// Calls `Sha1::digest` of the `sha1` crate on `data`. The contract gives the
/// twenty bytes that come back the name [`sha1_digest`], applied to the bytes of
/// `data`: the digest depends on those bytes and on nothing else. Nothing is
/// proved of the hash function itself.
#[verifier::external_body]
pub(crate) fn sha1(data: &[u8]) -> (digest: [u8; 20])
    ensures
        digest@ == sha1_digest(data@),
{
    Sha1::digest(data).into()
}

} // verus!
