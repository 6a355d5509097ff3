//! Signatures that prove that members of a section agree to something.

use crate::id::{ed25519_valid, verify_detached, PublicId, Signature};
use crate::order::{Checked, Coded};
use crate::ordered::{OrderedMap, OrderedSet};
use vstd::prelude::*;

verus! {

/// The signatures of a proof set, by the identities of those who made them.
pub type ProofMap = Map<PublicId, Signature>;

/// A signature and the identity of the one who made it.
#[derive(Clone, Copy, Debug, PartialEq, Eq)]
pub struct Proof {
    /// The identity of the signer.
    pub pub_id: PublicId,
    /// The signature.
    pub sig: Signature,
}

impl Proof {
    /// Returns the identity of the signer.
    pub fn pub_id(&self) -> (r: &PublicId)
        ensures
            *r == self.pub_id,
    {
        &self.pub_id
    }
}

/// All signatures are valid for the message.
pub open spec fn signatures_valid(proofs: ProofMap, message: Seq<u8>) -> bool {
    forall|id: PublicId| #[trigger]
        proofs.dom().contains(id) ==> ed25519_valid(
            proofs[id].0@,
            message,
            id.signing_key().0@,
        )
}

/// Signatures by different identities.
#[derive(Debug, PartialEq, Eq)]
pub struct ProofSet {
    /// The signatures.
    pub sigs: OrderedMap<PublicId, Signature>,
}

impl View for ProofSet {
    type V = ProofMap;

    open spec fn view(&self) -> ProofMap {
        self.sigs@
    }
}

impl Checked for ProofSet {
    open spec fn inv(&self) -> bool {
        self.sigs.inv()
    }

    fn duplicate(&self) -> (r: Self) {
        ProofSet { sigs: self.sigs.duplicate() }
    }
}

impl Clone for ProofSet {
    fn clone(&self) -> (r: Self)
        ensures
            r@ == self@,
            self.inv() ==> r.inv(),
    {
        self.duplicate()
    }
}

impl Coded for ProofSet {
    open spec fn code(v: ProofMap) -> Seq<u8> {
        OrderedMap::<PublicId, Signature>::code(v)
    }

    open spec fn valid(v: ProofMap) -> bool {
        OrderedMap::<PublicId, Signature>::valid(v)
    }

    proof fn inv_valid(&self) {
        self.sigs.inv_valid();
    }

    proof fn code_unique(a: ProofMap, b: ProofMap) {
        OrderedMap::<PublicId, Signature>::code_unique(a, b);
    }

    fn write(&self, out: &mut Vec<u8>) {
        self.sigs.write(out);
    }
}

impl ProofSet {
    /// Returns a set without signatures.
    pub fn new() -> (r: ProofSet)
        ensures
            r.inv(),
            r@ == ProofMap::empty(),
    {
        ProofSet { sigs: OrderedMap::new() }
    }

    /// Adds a signature, in place of an earlier one by the same identity. Returns whether there
    /// was none.
    pub fn add_proof(&mut self, proof: Proof) -> (r: bool)
        requires
            old(self).inv(),
        ensures
            final(self).inv(),
            final(self)@ == old(self)@.insert(proof.pub_id, proof.sig),
            r == !old(self)@.dom().contains(proof.pub_id),
    {
        self.sigs.insert(proof.pub_id, proof.sig).is_none()
    }

    /// Returns whether there is a signature by the given identity.
    pub fn contains_id(&self, id: &PublicId) -> (r: bool)
        requires
            self.inv(),
        ensures
            r == self@.dom().contains(*id),
    {
        self.sigs.contains_key(id)
    }

    /// Returns how many of the given identities have made one of the signatures.
    pub fn count_in(&self, ids: &OrderedSet<PublicId>) -> (r: usize)
        requires
            self.inv(),
            ids.inv(),
        ensures
            r == ids@.intersect(self@.dom()).len(),
            r <= ids@.len(),
    {
        proof {
            ids.lemma_inv();
        }
        let ghost s = ids.seq();
        let ghost d = self@.dom();
        let mut n: usize = 0;
        let mut i: usize = 0;
        assert(s.take(0).to_set().intersect(d) =~= Set::<PublicId>::empty());
        while i < ids.len()
            invariant
                self.inv(),
                ids.inv(),
                s == ids.seq(),
                s.no_duplicates(),
                d == self@.dom(),
                n <= i <= s.len(),
                s.take(i as int).to_set().intersect(d).finite(),
                n == s.take(i as int).to_set().intersect(d).len(),
            decreases s.len() - i,
        {
            let id = ids.at(i);
            let ghost before = s.take(i as int).to_set().intersect(d);
            let ghost after = s.take(i + 1).to_set().intersect(d);
            proof {
                let t = s.take(i as int);
                let u = s.take(i + 1);
                assert(u =~= t.push(*id));
                assert forall|x: PublicId| u.contains(x) == (t.contains(x) || x == *id) by {
                    if t.contains(x) {
                        let j = choose|j: int| 0 <= j < t.len() && t[j] == x;
                        assert(u[j] == x);
                    }
                    assert(u[i as int] == *id);
                    if u.contains(x) && x != *id {
                        let j = choose|j: int| 0 <= j < u.len() && u[j] == x;
                        assert(t[j] == x);
                    }
                }
                if t.contains(*id) {
                    let j = choose|j: int| 0 <= j < t.len() && t[j] == *id;
                    assert(s[j] == s[i as int]);
                }
            }
            if self.contains_id(id) {
                assert(after =~= before.insert(*id));
                n += 1;
            } else {
                assert(after =~= before);
            }
            i += 1;
        }
        assert(s.take(i as int) =~= s);
        n
    }

    /// Returns whether all signatures are valid for the message.
    pub fn validate_signatures(&self, message: &Vec<u8>) -> (r: bool)
        requires
            self.inv(),
        ensures
            r == signatures_valid(self@, message@),
    {
        proof {
            self.sigs.lemma_inv();
        }
        let mut i: usize = 0;
        while i < self.sigs.len()
            invariant
                self.inv(),
                i <= self.sigs.seq().len(),
                forall|j: int|
                    0 <= j < i ==> ed25519_valid(
                        self@[#[trigger] self.sigs.seq()[j]].0@,
                        message@,
                        self.sigs.seq()[j].signing_key().0@,
                    ),
            decreases self.sigs.seq().len() - i,
        {
            let id = self.sigs.key_at(i);
            let sig = self.sigs.value_at(i);
            if !verify_detached(sig, message.as_slice(), id.signing_public_key()) {
                assert(self@.dom().contains(*id));
                return false;
            }
            i += 1;
        }
        proof {
            assert forall|id: PublicId| #[trigger] self@.dom().contains(id) implies ed25519_valid(
                self@[id].0@,
                message@,
                id.signing_key().0@,
            ) by {
                assert(self.sigs.seq().to_set().contains(id));
                assert(self.sigs.seq().contains(id));
                let j = choose|j: int| 0 <= j < self.sigs.seq().len() && self.sigs.seq()[j] == id;
                assert(self.sigs.seq()[j] == id);
            }
        }
        true
    }
}

} // verus!
