//! Identities of nodes, and signatures by them.

use crate::codes::{peel, Bytes};
use crate::order::{
    code_injective, lex_asymmetric, lex_of_concat, lex_order, Checked, Coded, Key, Order,
};
use crate::xor_name::XorName;
use sodiumoxide::crypto::sign;
use vstd::prelude::*;

verus! {

/// A signature.
pub type Signature = Bytes<64>;

/// The identity of a node: its name and its public keys.
#[derive(Clone, Copy, Debug, PartialEq, Eq, PartialOrd, Ord, Hash)]
pub struct PublicId {
    name: XorName,
    public_signing_key: Bytes<32>,
    public_encrypt_key: Bytes<32>,
}

impl PublicId {
    /// The name of the node.
    pub closed spec fn xor_name(&self) -> XorName {
        self.name
    }

    /// The key that the signatures of the node are checked against.
    pub closed spec fn signing_key(&self) -> Bytes<32> {
        self.public_signing_key
    }

    /// The key that messages to the node are encrypted with.
    pub closed spec fn encrypt_key(&self) -> Bytes<32> {
        self.public_encrypt_key
    }

    /// Returns the identity with the given name and keys.
    pub fn new(
        name: XorName,
        public_signing_key: Bytes<32>,
        public_encrypt_key: Bytes<32>,
    ) -> (r: PublicId)
        ensures
            r.xor_name() == name,
            r.signing_key() == public_signing_key,
            r.encrypt_key() == public_encrypt_key,
    {
        PublicId { name, public_signing_key, public_encrypt_key }
    }

    /// Returns the name of the node.
    pub fn name(&self) -> (r: &XorName)
        ensures
            *r == self.xor_name(),
    {
        &self.name
    }

    /// Returns the key that the signatures of the node are checked against.
    pub fn signing_public_key(&self) -> (r: &Bytes<32>)
        ensures
            *r == self.signing_key(),
    {
        &self.public_signing_key
    }

    /// Returns whether both identities are the same.
    pub fn is(&self, other: &PublicId) -> (r: bool)
        ensures
            r == (self == other),
    {
        let o = self.compare(other);
        proof {
            if o == Order::Equal {
                code_injective::<PublicId>(*self, *other);
            } else if o == Order::Less {
                lex_asymmetric(PublicId::code(*self), PublicId::code(*other));
            }
        }
        match o {
            Order::Equal => true,
            _ => false,
        }
    }
}

impl View for PublicId {
    type V = PublicId;

    open spec fn view(&self) -> PublicId {
        *self
    }
}

impl Checked for PublicId {
    open spec fn inv(&self) -> bool {
        true
    }

    fn duplicate(&self) -> (r: Self) {
        *self
    }
}

impl Coded for PublicId {
    open spec fn code(v: PublicId) -> Seq<u8> {
        v.xor_name().0@ + (v.signing_key().0@ + v.encrypt_key().0@)
    }

    open spec fn valid(v: PublicId) -> bool {
        true
    }

    proof fn inv_valid(&self) {
    }

    proof fn code_unique(a: PublicId, b: PublicId) {
        let (x, y) = (a.signing_key().0@ + a.encrypt_key().0@, b.signing_key().0@ + b.encrypt_key().0@);
        peel::<XorName>(a.name, x, b.name, y);
        peel::<Bytes<32>>(
            a.public_signing_key,
            a.encrypt_key().0@,
            b.public_signing_key,
            b.encrypt_key().0@,
        );
        Bytes::<32>::code_unique(a.public_encrypt_key, b.public_encrypt_key);
    }

    fn write(&self, out: &mut Vec<u8>) {
        let ghost start = out@;
        self.name.write(out);
        self.public_signing_key.write(out);
        self.public_encrypt_key.write(out);
        assert(out@ =~= start + Self::code(*self));
    }
}

impl Key for PublicId {
    fn compare(&self, other: &Self) -> (o: Order) {
        proof {
            let (x, y) = (
                self.signing_key().0@ + self.encrypt_key().0@,
                other.signing_key().0@ + other.encrypt_key().0@,
            );
            lex_of_concat(self.name.0@, x, other.name.0@, y);
            lex_of_concat(
                self.signing_key().0@,
                self.encrypt_key().0@,
                other.signing_key().0@,
                other.encrypt_key().0@,
            );
            if lex_order(self.name.0@, other.name.0@) == Order::Less {
                lex_asymmetric(self.name.0@, other.name.0@);
            }
            if lex_order(self.signing_key().0@, other.signing_key().0@) == Order::Less {
                lex_asymmetric(self.signing_key().0@, other.signing_key().0@);
            }
        }
        match self.name.compare(&other.name) {
            Order::Equal => match self.public_signing_key.compare(&other.public_signing_key) {
                Order::Equal => self.public_encrypt_key.compare(&other.public_encrypt_key),
                o => o,
            },
            o => o,
        }
    }
}

/// The signature of the message is valid for the public key.
pub uninterp spec fn ed25519_valid(sig: Seq<u8>, message: Seq<u8>, public_key: Seq<u8>) -> bool;

/// Calls `sodiumoxide::crypto::sign::verify_detached`, behind `Signature::from_bytes`, whose error
/// stands for an invalid signature. What is claimed: the outcome depends on the signature, the
/// message and the key alone.
#[verifier::external_body]
pub(crate) fn verify_detached(sig: &Signature, message: &[u8], public_key: &Bytes<32>) -> (r: bool)
    ensures
        r == ed25519_valid(sig.0@, message@, public_key.0@),
{
    match sign::Signature::from_bytes(&sig.0) {
        Ok(signature) => sign::verify_detached(&signature, message, &sign::PublicKey(public_key.0)),
        Err(_) => false,
    }
}

} // verus!
