//! Names that are digests of keys.

use crate::codes::Bytes;
use crate::order::push_bytes;
use vstd::prelude::*;

verus! {

/// A name of 512 bits.
pub type NameType = Bytes<64>;

/// The SHA-512 digest of a byte string.
pub uninterp spec fn sha512_of(data: Seq<u8>) -> Seq<u8>;

/// Calls `sodiumoxide::crypto::hash::sha512::hash`. What is claimed: the digest depends on the bytes
/// alone.
#[verifier::external_body]
fn sha512(data: &[u8]) -> (r: NameType)
    ensures
        r.0@ == sha512_of(data@),
{
    Bytes(sodiumoxide::crypto::hash::sha512::hash(data).0)
}

/// The name with the bytes of the SHA-512 digest of a byte string.
pub open spec fn name_of(data: Seq<u8>) -> NameType {
    choose|n: NameType| n.0@ == sha512_of(data)
}

/// Returns the name that is the digest of a byte string.
pub fn hashed_name(data: &[u8]) -> (r: NameType)
    ensures
        r == name_of(data@),
        r.0@ == sha512_of(data@),
{
    let r = sha512(data);
    proof {
        assert(name_of(data@).0@ == r.0@);
        assert(name_of(data@).0 =~= r.0);
    }
    r
}

/// The name that a node has after it was relocated for the first time: the digest of the digest of
/// its keys and its validation token.
pub open spec fn self_relocated_name(
    public_sign_key: Bytes<32>,
    public_key: Bytes<32>,
    validation_token: Bytes<64>,
) -> NameType {
    name_of(name_of(public_sign_key.0@ + public_key.0@ + validation_token.0@).0@)
}

/// Returns the name of a client: the digest of its signing key.
pub fn public_key_to_client_name(public_sign_key: &Bytes<32>) -> (r: NameType)
    ensures
        r == name_of(public_sign_key.0@),
        r.0@ == sha512_of(public_sign_key.0@),
{
    hashed_name(&public_sign_key.0)
}

/// Returns the name that a node has after it was relocated for the first time.
pub fn calculate_self_relocated_name(
    public_sign_key: &Bytes<32>,
    public_key: &Bytes<32>,
    validation_token: &Bytes<64>,
) -> (r: NameType)
    ensures
        r == self_relocated_name(*public_sign_key, *public_key, *validation_token),
        r.0@ == sha512_of(
            sha512_of(public_sign_key.0@ + public_key.0@ + validation_token.0@),
        ),
{
    let mut bytes: Vec<u8> = Vec::new();
    push_bytes(&mut bytes, &public_sign_key.0);
    push_bytes(&mut bytes, &public_key.0);
    push_bytes(&mut bytes, &validation_token.0);
    assert(bytes@ =~= public_sign_key.0@ + public_key.0@ + validation_token.0@);
    let first_name = hashed_name(bytes.as_slice());
    hashed_name(&first_name.0)
}

} // verus!
