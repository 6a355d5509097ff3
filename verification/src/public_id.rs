//! Identities of nodes that get their name from others.

use crate::codes::Bytes;
use crate::name_type::{
    calculate_self_relocated_name, name_of, public_key_to_client_name, self_relocated_name,
    sha512_of, NameType,
};
use vstd::prelude::*;

verus! {

/// The keys and the name of a node, as far as it shows them.
#[derive(Clone, Copy, Debug, PartialEq, Eq)]
pub struct Id {
    /// The key that messages to the node are encrypted with.
    pub public_key: Bytes<32>,
    /// The key that the signatures of the node are checked against.
    pub public_sign_key: Bytes<32>,
    /// The name of the node, if it has one yet.
    pub name: Option<NameType>,
}

/// What others know of the identity of a node.
#[derive(Clone, Copy, Debug, PartialEq, Eq, PartialOrd, Ord, Hash)]
pub struct PublicId {
    public_key: Bytes<32>,
    public_sign_key: Bytes<32>,
    name: Option<NameType>,
}

impl PublicId {
    /// The key that messages to the node are encrypted with.
    pub closed spec fn encrypt_key(&self) -> Bytes<32> {
        self.public_key
    }

    /// The key that the signatures of the node are checked against.
    pub closed spec fn sign_key(&self) -> Bytes<32> {
        self.public_sign_key
    }

    /// The name of the node, if it has one yet.
    pub closed spec fn given_name(&self) -> Option<NameType> {
        self.name
    }

    /// The identity after the name was replaced by `relocated_name`: a node without a name is left
    /// without one.
    pub open spec fn is_relocated(&self, relocated_name: NameType, after: PublicId) -> bool {
        &&& after.encrypt_key() == self.encrypt_key()
        &&& after.sign_key() == self.sign_key()
        &&& after.given_name() == (if self.given_name() is None {
            None
        } else {
            Some(relocated_name)
        })
    }

    /// Returns what others know of an identity.
    pub fn new(id: &Id) -> (r: PublicId)
        ensures
            r.encrypt_key() == id.public_key,
            r.sign_key() == id.public_sign_key,
            r.given_name() == id.name,
    {
        PublicId {
            public_key: id.public_key,
            public_sign_key: id.public_sign_key,
            name: id.name,
        }
    }

    /// Returns the name of the node, if it has one yet.
    pub fn name(&self) -> (r: Option<NameType>)
        ensures
            r == self.given_name(),
    {
        self.name
    }

    /// Returns the name that the node has as a client: the digest of its signing key.
    pub fn client_name(&self) -> (r: NameType)
        ensures
            r == name_of(self.sign_key().0@),
            r.0@ == sha512_of(self.sign_key().0@),
    {
        public_key_to_client_name(&self.public_sign_key)
    }

    /// Returns the keys and the name, as they are written down.
    pub fn contents(&self) -> (r: (Bytes<32>, Bytes<32>, Option<NameType>))
        ensures
            r == (self.encrypt_key(), self.sign_key(), self.given_name()),
    {
        (self.public_key, self.public_sign_key, self.name)
    }

    /// Returns whether the name is the one that the node has after it was relocated for the first
    /// time.
    pub fn is_self_relocated(&self, validation_token: &Bytes<64>) -> (r: bool)
        ensures
            r == (self.given_name() == Some(
                self_relocated_name(self.sign_key(), self.encrypt_key(), *validation_token),
            )),
    {
        match &self.name {
            Some(name) => name.is(
                &calculate_self_relocated_name(
                    &self.public_sign_key,
                    &self.public_key,
                    validation_token,
                ),
            ),
            None => false,
        }
    }

    /// Replaces the name by the one that the nodes close to it have calculated. Returns whether the
    /// node had a name and it was another one.
    pub fn assign_relocated_name(&mut self, relocated_name: NameType) -> (r: bool)
        ensures
            r == (old(self).given_name() is Some && old(self).given_name() != Some(relocated_name)),
            old(self).is_relocated(relocated_name, *final(self)),
            r ==> final(self).given_name() == Some(relocated_name),
            final(self).encrypt_key() == old(self).encrypt_key(),
            final(self).sign_key() == old(self).sign_key(),
            !r ==> *final(self) == *old(self),
    {
        match &self.name {
            Some(name) => {
                if name.is(&relocated_name) {
                    return false;
                }
            },
            None => {
                return false;
            },
        }
        self.name = Some(relocated_name);
        true
    }
}

} // verus!
