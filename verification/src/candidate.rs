//! The node that is about to join our section.

use crate::id::PublicId;
use crate::network_event::OnlinePayload;
use crate::ordered::OrderedSet;
use crate::order::Checked;
use crate::xor_name::XorName;
use vstd::prelude::*;

verus! {

/// The names between which a relocated node has to choose its new one, both ends included.
#[derive(Clone, Copy, Debug, PartialEq, Eq)]
pub struct XorTargetInterval(pub XorName, pub XorName);

/// The node that is about to join our section.
#[derive(Clone, Copy, Debug, PartialEq, Eq)]
pub enum Candidate {
    /// There is none.
    Nobody,
    /// The node with this identity is being tested.
    AcceptedForResourceProof { old_pub_id: PublicId, target_interval: XorTargetInterval },
    /// The node with this identity has passed its tests. The section that holds it is awaited.
    ApprovedWaitingSectionInfo { new_pub_id: PublicId },
}

impl Candidate {
    /// The candidate after it was forgotten if it is one of the given members.
    pub open spec fn without_member(self, members: Set<PublicId>) -> Candidate {
        match self {
            Candidate::ApprovedWaitingSectionInfo { new_pub_id } if members.contains(
                new_pub_id,
            ) => Candidate::Nobody,
            _ => self,
        }
    }

    /// The identity of the candidate that is being tested.
    pub open spec fn tested_id(self) -> Option<PublicId> {
        match self {
            Candidate::AcceptedForResourceProof { old_pub_id, target_interval } => Some(old_pub_id),
            _ => None,
        }
    }

    /// Returns whether there is no candidate.
    pub fn is_none(&self) -> (r: bool)
        ensures
            r == (self is Nobody),
    {
        match self {
            Candidate::Nobody => true,
            _ => false,
        }
    }

    /// Forgets the candidate.
    pub fn reset(&mut self)
        ensures
            *final(self) == Candidate::Nobody,
    {
        *self = Candidate::Nobody;
    }

    /// Forgets the candidate if it is an approved one and among the given members.
    pub fn reset_if_member_of(&mut self, members: &OrderedSet<PublicId>)
        requires
            members.inv(),
        ensures
            *final(self) == old(self).without_member(members@),
    {
        if let Candidate::ApprovedWaitingSectionInfo { new_pub_id } = *self {
            if members.contains(&new_pub_id) {
                *self = Candidate::Nobody;
            }
        }
    }

    /// Returns the target interval if the candidate with the given identity is being tested.
    pub fn matching_target_interval(&self, id: &PublicId) -> (r: Option<&XorTargetInterval>)
        ensures
            match r {
                Some(interval) => *self == (Candidate::AcceptedForResourceProof {
                    old_pub_id: *id,
                    target_interval: *interval,
                }),
                None => self.tested_id() != Some(*id),
            },
    {
        match self {
            Candidate::AcceptedForResourceProof { old_pub_id, target_interval } => {
                if old_pub_id.is(id) {
                    Some(target_interval)
                } else {
                    None
                }
            },
            _ => None,
        }
    }

    /// Starts to test the node with the given identity.
    pub fn accept_for_resource_proof(
        &mut self,
        old_pub_id: PublicId,
        target_interval: XorTargetInterval,
    )
        ensures
            *final(self) == (Candidate::AcceptedForResourceProof { old_pub_id, target_interval }),
    {
        *self = Candidate::AcceptedForResourceProof { old_pub_id, target_interval };
    }

    /// Approves the candidate with the old identity of the payload if it is being tested. Returns
    /// whether it was.
    pub fn try_accept_as_member(&mut self, online_payload: &OnlinePayload) -> (r: bool)
        ensures
            r == (old(self).tested_id() == Some(online_payload.old_public_id)),
            *final(self) == (if r {
                Candidate::ApprovedWaitingSectionInfo { new_pub_id: online_payload.new_public_id }
            } else {
                *old(self)
            }),
    {
        match *self {
            Candidate::AcceptedForResourceProof { old_pub_id, target_interval } => {
                if old_pub_id.is(&online_payload.old_public_id) {
                    *self = Candidate::ApprovedWaitingSectionInfo {
                        new_pub_id: online_payload.new_public_id,
                    };
                    true
                } else {
                    false
                }
            },
            _ => false,
        }
    }

    /// Returns the identity of the candidate that is being tested.
    pub fn old_public_id(&self) -> (r: Option<&PublicId>)
        ensures
            match r {
                Some(id) => self.tested_id() == Some(*id),
                None => self.tested_id() is None,
            },
    {
        match self {
            Candidate::AcceptedForResourceProof { old_pub_id, target_interval } => Some(old_pub_id),
            _ => None,
        }
    }
}

/// Only a candidate that is being tested has an identity to be matched, and only one that was approved
/// is forgotten when it has become a member.
pub proof fn candidate_moves_on(candidate: Candidate, members: Set<PublicId>)
    ensures
        match candidate {
            Candidate::Nobody => candidate.tested_id() is None && candidate.without_member(members)
                is Nobody,
            Candidate::AcceptedForResourceProof { old_pub_id, target_interval } => {
                &&& candidate.tested_id() == Some(old_pub_id)
                &&& candidate.without_member(members) == candidate
            },
            Candidate::ApprovedWaitingSectionInfo { new_pub_id } => {
                &&& candidate.tested_id() is None
                &&& candidate.without_member(members) is Nobody <==> members.contains(new_pub_id)
                &&& !members.contains(new_pub_id) ==> candidate.without_member(members) == candidate
            },
        },
{
}

} // verus!
