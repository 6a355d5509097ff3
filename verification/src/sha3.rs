//! Digests.

use crate::codes::Bytes;
use vstd::prelude::*;

verus! {

/// A SHA3-256 digest.
pub type Digest256 = Bytes<32>;

/// The SHA3-256 digest of a byte string.
pub uninterp spec fn sha3_256_of(data: Seq<u8>) -> Seq<u8>;

/// Calls `tiny_keccak::sha3_256`. What is claimed: the digest depends on the bytes alone.
#[verifier::external_body]
fn sha3_256(data: &[u8]) -> (r: Digest256)
    ensures
        r.0@ == sha3_256_of(data@),
{
    Bytes(tiny_keccak::sha3_256(data))
}

/// The digest with the bytes of the SHA3-256 digest of a byte string.
pub open spec fn digest_of(data: Seq<u8>) -> Digest256 {
    choose|d: Digest256| d.0@ == sha3_256_of(data)
}

/// Returns the digest of a byte string.
pub fn digest(data: &[u8]) -> (r: Digest256)
    ensures
        r == digest_of(data@),
{
    let r = sha3_256(data);
    proof {
        assert(digest_of(data@).0@ == r.0@);
        assert(digest_of(data@).0 =~= r.0);
    }
    r
}

} // verus!
