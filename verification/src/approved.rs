//! What an approved node does with the blocks of its section's consensus.

use crate::authority::Authority;
use crate::chain::Chain;
use crate::chain_model::{ChainModel, Step};
use crate::codes::models;
use crate::error::RoutingError;
use crate::event_laws::{agreed_event_is_returned, agreed_membership_waits, majority};
use crate::id::PublicId;
use crate::network_event::{EventModel, ExpectCandidatePayload, NetworkEvent, OnlinePayload};
use crate::order::Checked;
use crate::prefix::Prefix;
use crate::proof_set::{Proof, ProofMap, ProofSet};
use crate::section_info::{ProvingSection, SectionInfo};
use crate::shared_state::PrefixChange;
use vstd::prelude::*;

verus! {

/// What the members of a section agree on in a block.
#[derive(Debug, PartialEq, Eq)]
pub enum Observation {
    /// A member has misbehaved.
    Accusation,
    /// The section was founded.
    Genesis,
    /// An event that the members have voted for.
    OpaquePayload(NetworkEvent),
    /// A node is added. `related_info` is the authority that came with it, if it could be parsed.
    Add { peer_id: PublicId, related_info: Option<Authority> },
    /// A node is removed.
    Remove { peer_id: PublicId },
}

/// Something that the members of a section agree on, with their signatures.
#[derive(Debug, PartialEq, Eq)]
pub struct Block {
    /// What they agree on.
    pub payload: Observation,
    /// Their signatures.
    pub proofs: Vec<Proof>,
}

/// The signatures by their signers. The last one of a signer counts.
pub open spec fn proof_map(proofs: Seq<Proof>) -> ProofMap
    decreases proofs.len(),
{
    if proofs.len() == 0 {
        ProofMap::empty()
    } else {
        proof_map(proofs.drop_last()).insert(proofs.last().pub_id, proofs.last().sig)
    }
}

impl Block {
    /// What the block agrees on is valid.
    pub open spec fn inv(&self) -> bool {
        match self.payload {
            Observation::OpaquePayload(event) => event.inv(),
            Observation::Add { peer_id, related_info: Some(auth) } => auth.inv(),
            _ => true,
        }
    }
}

/// Returns the signatures of a block by their signers.
pub fn to_proof_set(block: &Block) -> (r: ProofSet)
    ensures
        r.inv(),
        r@ == proof_map(block.proofs@),
{
    let mut r = ProofSet::new();
    let mut i: usize = 0;
    while i < block.proofs.len()
        invariant
            r.inv(),
            i <= block.proofs@.len(),
            r@ == proof_map(block.proofs@.take(i as int)),
        decreases block.proofs@.len() - i,
    {
        assert(block.proofs@.take(i + 1).drop_last() =~= block.proofs@.take(i as int));
        let _ = r.add_proof(block.proofs[i]);
        i += 1;
    }
    assert(block.proofs@.take(i as int) =~= block.proofs@);
    r
}

impl ChainModel {
    /// Handles a block. Where this succeeds, it says whether the chain has to be polled.
    pub open spec fn block_step(self, block: Block) -> Step<bool> {
        match block.payload {
            Observation::Accusation => (self, Ok(false)),
            Observation::Genesis => (self, Ok(false)),
            Observation::OpaquePayload(event) => if block.proofs@.len() > 0 {
                (self.vote_step(event@, block.proofs@[0]), Ok(true))
            } else {
                (self, Ok(true))
            },
            Observation::Add { peer_id, related_info } => match related_info {
                None => (self, Err(RoutingError::Serialisation)),
                Some(auth) => self.agreed_step(EventModel::AddElder(peer_id, auth), block),
            },
            Observation::Remove { peer_id } => self.agreed_step(
                EventModel::RemoveElder(peer_id),
                block,
            ),
        }
    }

    /// Handles a change of the membership that a block agrees on.
    pub open spec fn agreed_step(self, event: EventModel, block: Block) -> Step<bool> {
        let (next, result) = self.churn_step(event, proof_map(block.proofs@));
        match result {
            Ok(_) => (next, Ok(true)),
            Err(e) => (next, Err(e)),
        }
    }
}

/// Hands a block to the chain. Returns whether the chain has to be polled.
pub fn handle_block(chain: &mut Chain, block: &Block) -> (r: Result<bool, RoutingError>)
    requires
        old(chain).inv(),
        block.inv(),
        !(block.payload is Accusation),
    ensures
        final(chain).inv(),
        (final(chain)@, r) == old(chain)@.block_step(*block),
{
    match &block.payload {
        Observation::Accusation => Ok(false),
        Observation::Genesis => Ok(false),
        Observation::OpaquePayload(event) => {
            if block.proofs.len() > 0 {
                chain.handle_opaque_event(event, block.proofs[0])?;
            }
            Ok(true)
        },
        Observation::Add { peer_id, related_info } => {
            let auth = match related_info {
                Some(auth) => *auth,
                None => {
                    return Err(RoutingError::Serialisation);
                },
            };
            let event = NetworkEvent::AddElder(*peer_id, auth);
            chain.handle_churn_event(&event, to_proof_set(block))?;
            Ok(true)
        },
        Observation::Remove { peer_id } => {
            let event = NetworkEvent::RemoveElder(*peer_id);
            chain.handle_churn_event(&event, to_proof_set(block))?;
            Ok(true)
        },
    }
}

/// What has to be done about an event that takes effect.
#[derive(Debug, PartialEq, Eq)]
pub enum Action {
    /// Let the node join our section.
    AddElder(PublicId, Authority),
    /// Let the node leave our section.
    RemoveElder(PublicId),
    /// Propose that the node that has passed its tests joins our section.
    Online(OnlinePayload),
    /// Propose that the node leaves our section.
    Offline(PublicId),
    /// Send the node that is joining our section, or send the request on.
    ExpectCandidate(ExpectCandidatePayload),
    /// Give up on the node that was to join our section.
    PurgeCandidate(PublicId),
    /// Our section merges.
    OurMerge,
    /// A neighbouring section merges.
    NeighbourMerge,
    /// A section has changed. `old_pfx` is the prefix that ours had before.
    SectionInfo { sec_info: SectionInfo, old_pfx: Prefix },
    /// Sections vouch for another one.
    ProvingSections(Vec<ProvingSection>, SectionInfo),
}

/// The action is the one for the event, where our section had the prefix `old_pfx`.
pub open spec fn is_action(action: Action, event: EventModel, old_pfx: Prefix) -> bool {
    match event {
        EventModel::AddElder(id, auth) => action == Action::AddElder(id, auth),
        EventModel::RemoveElder(id) => action == Action::RemoveElder(id),
        EventModel::Online(payload) => action == Action::Online(payload),
        EventModel::Offline(id) => action == Action::Offline(id),
        EventModel::ExpectCandidate(payload) => action == Action::ExpectCandidate(payload),
        EventModel::PurgeCandidate(id) => action == Action::PurgeCandidate(id),
        EventModel::OurMerge => action == Action::OurMerge,
        EventModel::NeighbourMerge(_) => action == Action::NeighbourMerge,
        EventModel::SectionInfo(info) => action matches Action::SectionInfo { sec_info, old_pfx: p }
            && sec_info@ == info && p == old_pfx,
        EventModel::ProvingSections(sections, info) => action matches Action::ProvingSections(s, i)
            && models(s@) == sections && i@ == info,
    }
}

/// Returns what has to be done about an event, where our section had the prefix `old_pfx`.
fn action_for(event: NetworkEvent, old_pfx: Prefix) -> (r: Action)
    ensures
        is_action(r, event@, old_pfx),
{
    match event {
        NetworkEvent::AddElder(id, auth) => Action::AddElder(id, auth),
        NetworkEvent::RemoveElder(id) => Action::RemoveElder(id),
        NetworkEvent::Online(payload) => Action::Online(payload),
        NetworkEvent::Offline(id) => Action::Offline(id),
        NetworkEvent::ExpectCandidate(payload) => Action::ExpectCandidate(payload),
        NetworkEvent::PurgeCandidate(id) => Action::PurgeCandidate(id),
        NetworkEvent::OurMerge => Action::OurMerge,
        NetworkEvent::NeighbourMerge(_) => Action::NeighbourMerge,
        NetworkEvent::SectionInfo(sec_info) => Action::SectionInfo { sec_info, old_pfx },
        NetworkEvent::ProvingSections(sections, sec_info) => Action::ProvingSections(
            sections,
            sec_info,
        ),
    }
}

/// Lets the next event of the chain take effect, and returns what has to be done about it.
pub fn poll_action(chain: &mut Chain) -> (r: Result<Option<Action>, RoutingError>)
    requires
        old(chain).inv(),
    ensures
        final(chain).inv(),
        final(chain)@ == old(chain)@.poll_step().0,
        match r {
            Ok(Some(action)) => old(chain)@.poll_step().1 matches Ok(Some(event)) && is_action(
                action,
                event,
                old(chain)@.our_prefix(),
            ),
            Ok(None) => old(chain)@.poll_step().1 == Ok::<Option<EventModel>, RoutingError>(None),
            Err(e) => old(chain)@.poll_step().1 == Err::<Option<EventModel>, _>(e),
        },
{
    let our_pfx = *chain.our_prefix();
    match chain.poll()? {
        None => Ok(None),
        Some(event) => Ok(Some(action_for(event, our_pfx))),
    }
}

/// The signatures of a block are those by its signers, and of several by one signer the last one.
pub proof fn signers_are_kept(proofs: Seq<Proof>, i: int)
    ensures
        forall|id: PublicId| #[trigger]
            proof_map(proofs).dom().contains(id) <==> exists|j: int|
                0 <= j < proofs.len() && (#[trigger] proofs[j]).pub_id == id,
        0 <= i < proofs.len() && (forall|j: int|
            i < j < proofs.len() ==> (#[trigger] proofs[j]).pub_id != proofs[i].pub_id)
            ==> proof_map(proofs)[proofs[i].pub_id] == proofs[i].sig,
    decreases proofs.len(),
{
    if proofs.len() > 0 {
        let rest = proofs.drop_last();
        let n = rest.len() as int;
        signers_are_kept(rest, i);
        assert forall|id: PublicId| #[trigger]
            proof_map(proofs).dom().contains(id) <==> exists|j: int|
                0 <= j < proofs.len() && (#[trigger] proofs[j]).pub_id == id by {
            if proof_map(rest).dom().contains(id) {
                let j = choose|j: int| 0 <= j < rest.len() && (#[trigger] rest[j]).pub_id == id;
                assert(proofs[j].pub_id == id);
            }
            if id == proofs.last().pub_id {
                assert(proofs[n].pub_id == id);
            }
            if exists|j: int| 0 <= j < proofs.len() && (#[trigger] proofs[j]).pub_id == id {
                let j = choose|j: int| 0 <= j < proofs.len() && (#[trigger] proofs[j]).pub_id == id;
                if j < n {
                    assert(rest[j].pub_id == id);
                    assert(proof_map(rest).dom().contains(id));
                }
            }
        }
        if 0 <= i < n && (forall|j: int|
            i < j < proofs.len() ==> (#[trigger] proofs[j]).pub_id != proofs[i].pub_id) {
            assert forall|j: int| i < j < rest.len() implies (#[trigger] rest[j]).pub_id
                != rest[i].pub_id by {
                assert(proofs[j].pub_id != proofs[i].pub_id);
            }
            assert(proofs[n].pub_id != proofs[i].pub_id);
        }
    }
}

/// What the chain learns from a block: the vote of the first one who has signed an event, agreement on
/// a change of the membership with all signatures, and nothing from the founding of the section.
/// Except for that, the chain has to be polled.
pub proof fn block_is_handed_on(m: ChainModel, block: Block)
    ensures
        match block.payload {
            Observation::Genesis => m.block_step(block) == (m, Ok::<bool, RoutingError>(false)),
            Observation::Accusation => m.block_step(block).0 == m,
            Observation::OpaquePayload(event) => {
                &&& m.block_step(block).1 == Ok::<bool, RoutingError>(true)
                &&& block.proofs@.len() > 0 ==> m.block_step(block).0 == m.vote_step(
                    event@,
                    block.proofs@.first(),
                )
                &&& block.proofs@.len() == 0 ==> m.block_step(block).0 == m
            },
            Observation::Add { peer_id, related_info: Some(auth) } => m.block_step(block) == (
                m.churn_step(EventModel::AddElder(peer_id, auth), proof_map(block.proofs@)).0,
                Ok::<bool, RoutingError>(true),
            ),
            Observation::Add { peer_id, related_info: None } => m.block_step(block) == (
                m,
                Err::<bool, RoutingError>(RoutingError::Serialisation),
            ),
            Observation::Remove { peer_id } => m.block_step(block) == (
                m.churn_step(EventModel::RemoveElder(peer_id), proof_map(block.proofs@)).0,
                Ok::<bool, RoutingError>(true),
            ),
        },
{
}

/// Agreement on a change of the membership takes effect: when a block with the signatures of more
/// than half of a stable section was handled and nothing else is waiting, polling returns the change.
pub proof fn agreed_membership_takes_effect(m: ChainModel, event: EventModel, proofs: ProofMap)
    requires
        event is AddElder || event is RemoveElder,
        m.state.change == PrefixChange::Stable,
        !m.completed.contains(event),
        m.accumulator.dom() == Set::<EventModel>::empty(),
        m.churn_step(event, proofs).0.valid(),
        majority(m.our_info().members, proofs),
    ensures
        m.churn_step(event, proofs).0.poll_step().1 == Ok::<Option<EventModel>, RoutingError>(
            Some(event),
        ),
{
    let next = m.churn_step(event, proofs).0;
    agreed_membership_waits(m, event, proofs);
    assert(next.accumulator.dom() =~= set![event]);
    agreed_event_is_returned(next, event);
}

/// What has to be done about an event says everything that the event says, and the prefix that our
/// section had where a section has changed.
pub proof fn action_tells_event(a: Action, event: EventModel, old_pfx: Prefix)
    requires
        is_action(a, event, old_pfx),
    ensures
        event matches EventModel::AddElder(id, auth) ==> a == Action::AddElder(id, auth),
        event matches EventModel::RemoveElder(id) ==> a == Action::RemoveElder(id),
        event matches EventModel::Online(payload) ==> a == Action::Online(payload),
        event matches EventModel::Offline(id) ==> a == Action::Offline(id),
        event matches EventModel::ExpectCandidate(payload) ==> a == Action::ExpectCandidate(
            payload,
        ),
        event matches EventModel::PurgeCandidate(id) ==> a == Action::PurgeCandidate(id),
        event is OurMerge ==> a is OurMerge,
        event is NeighbourMerge ==> a is NeighbourMerge,
        event matches EventModel::SectionInfo(info) ==> a matches Action::SectionInfo {
            sec_info,
            old_pfx: p,
        } && sec_info@ == info && p == old_pfx,
        event matches EventModel::ProvingSections(sections, info) ==> a matches Action::ProvingSections(
            s,
            i,
        ) && models(s@) == sections && i@ == info,
{
}

} // verus!
