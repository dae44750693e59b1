//! Identities: the SHA-1 digest of an object's canonical bytes.
use vstd::prelude::*;

verus! {

/// The SHA-1 digest of a byte sequence.
pub uninterp spec fn sha1_of(b: Seq<u8>) -> Seq<u8>;

/// Relies on `sha1::Sha1` (from, digest, bytes): the 20-byte SHA-1 digest
/// of the input.
#[verifier::external_body]
pub(crate) fn sha1_digest(b: &[u8]) -> (r: Vec<u8>)
    ensures
        r@ == sha1_of(b@),
        r@.len() == 20,
{
    sha1::Sha1::from(b).digest().bytes().to_vec()
}

} // verus!
