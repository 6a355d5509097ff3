//! What a chain says, and what its operations mean.

use crate::authority::Authority;
use crate::candidate::Candidate;
use crate::codes::set_valid;
use crate::error::{Error, RoutingError};
use crate::id::PublicId;
use crate::message::MessageModel;
use crate::network_event::{EventModel, NetworkEvent};
use crate::order::{key_less, Checked};
use crate::ordered::sorted;
use crate::prefix::{covered, Prefix};
use crate::proof_set::{Proof, ProofMap};
use crate::section_info::{NeighbourModel, ProvingModel, SectionModel};
use crate::seqs::{by_distance, find_first, find_last};
use crate::shared_state::{Confirmed, PrefixChange, StateModel};
use crate::xor_name::{common_len, not_farther, XorName};
use vstd::prelude::*;

verus! {

/// Amount added to the minimum section size when deciding whether a section can split. This helps
/// protect against rapid splitting and merging in the face of moderate churn.
pub const SPLIT_BUFFER: usize = 1;

/// What a chain says.
#[verifier::ext_equal]
pub struct ChainModel {
    /// The number of nodes that a section should have at least.
    pub min_sec_size: usize,
    /// The identity of this node.
    pub our_id: PublicId,
    /// The shared state of the section.
    pub state: StateModel,
    /// This node is a member of the section.
    pub is_member: bool,
    /// What is known of the neighbouring sections, by their prefixes.
    pub neighbours: Map<Prefix, NeighbourModel>,
    /// The versions of our section that other sections know.
    pub their_knowledge: Map<Prefix, u64>,
    /// The events that were not handled yet, with their signatures.
    pub accumulator: Map<EventModel, ProofMap>,
    /// The events that were handled.
    pub completed: Set<EventModel>,
    /// The events that have to wait for a split or merge.
    pub event_cache: Set<EventModel>,
    /// The node that is about to join our section.
    pub candidate: Candidate,
}

/// What is known of a neighbour, with the version of the newest of the given descriptions that the
/// signatures are a quorum of.
pub open spec fn updated_by(infos: Seq<Confirmed>, n: NeighbourModel) -> NeighbourModel {
    match find_last(infos, |x: Confirmed| n.can_update(x.0)) {
        Some(x) => NeighbourModel { our_version: x.0.version, ..n },
        None => n,
    }
}

/// What an operation that can fail leaves behind and returns.
pub type Step<T> = (ChainModel, Result<T, RoutingError>);

// Events
impl ChainModel {
    /// No handled event is waiting to be handled, and all neighbours are neighbours of our
    /// section.
    pub open spec fn well_formed(self) -> bool {
        &&& self.accumulator.dom().disjoint(self.completed)
        &&& forall|p: Prefix| #[trigger]
            self.neighbours.dom().contains(p) ==> self.state.our_prefix().adjoins(p)
    }

    /// What holds of every chain: it is well formed, and all that it knows is valid.
    pub open spec fn valid(self) -> bool {
        &&& self.well_formed()
        &&& self.state.our_infos.len() > 0
        &&& self.state.new_info.valid()
        &&& forall|i: int|
            0 <= i < self.state.our_infos.len() ==> (#[trigger] self.state.our_infos[i]).0.valid()
        &&& set_valid::<Prefix>(self.neighbours.dom())
        &&& forall|p: Prefix| #[trigger]
            self.neighbours.dom().contains(p) ==> p.inv() && self.neighbours[p].sec_info.valid()
        &&& set_valid::<Prefix>(self.their_knowledge.dom())
        &&& set_valid::<NetworkEvent>(self.accumulator.dom())
    }

    /// The conditions on a chain only depend on our prefix, the neighbours and the events.
    pub proof fn stays_well_formed(self, next: ChainModel)
        requires
            self.well_formed(),
            next.our_prefix() == self.our_prefix(),
            next.neighbours == self.neighbours,
            next.accumulator.dom().disjoint(next.completed),
        ensures
            next.well_formed(),
    {
        assert forall|p: Prefix| #[trigger]
            next.neighbours.dom().contains(p) implies next.state.our_prefix().adjoins(p) by {
            assert(self.neighbours.dom().contains(p));
        }
    }

    /// The chain of a node in a section that was just founded.
    pub open spec fn founded(min_sec_size: usize, our_id: PublicId, first: SectionModel) -> Self {
        ChainModel {
            min_sec_size,
            our_id,
            state: StateModel {
                new_info: first,
                our_infos: seq![(first, ProofMap::empty())],
                change: PrefixChange::Stable,
                merging: Set::empty(),
                split_cache: None,
            },
            is_member: first.members.contains(our_id),
            neighbours: Map::empty(),
            their_knowledge: Map::empty(),
            accumulator: Map::empty(),
            completed: Set::empty(),
            event_cache: Set::empty(),
            candidate: Candidate::Nobody,
        }
    }

    /// Our name.
    pub open spec fn our_name(self) -> XorName {
        self.our_id.xor_name()
    }

    /// The latest confirmed description of our section.
    pub open spec fn our_info(self) -> SectionModel {
        self.state.our_info()
    }

    /// Our section's prefix.
    pub open spec fn our_prefix(self) -> Prefix {
        self.state.our_prefix()
    }

    /// The prefixes of the neighbouring sections in ascending order.
    pub open spec fn keys(self) -> Seq<Prefix> {
        sorted::<Prefix>(self.neighbours.dom())
    }

    /// The neighbouring sections in the order of their prefixes.
    pub open spec fn neighbour_list(self) -> Seq<SectionModel> {
        self.keys().map_values(|p: Prefix| self.neighbours[p].sec_info)
    }

    /// We have signed an event that was not handled yet.
    pub open spec fn signed(self, event: EventModel) -> bool {
        self.accumulator.dom().contains(event) && self.accumulator[event].dom().contains(
            self.our_id,
        )
    }

    /// An event can be handled at once: our prefix is not about to change, or the event is about
    /// that change.
    pub open spec fn can_handle(self, event: EventModel) -> bool {
        match (self.state.change, event) {
            (PrefixChange::Stable, _) => true,
            (PrefixChange::Merging, EventModel::OurMerge) => true,
            (PrefixChange::Merging, EventModel::NeighbourMerge(_)) => true,
            (_, EventModel::SectionInfo(info)) => !(info.prefix.compatible(self.our_prefix())
                && info.version > self.state.new_info.version),
            _ => false,
        }
    }

    /// The event is about a section that we already know in that version or a newer one.
    pub open spec fn can_skip(self, event: EventModel) -> bool {
        event matches EventModel::SectionInfo(info) && {
            ||| info.prefix.covers(self.our_name()) && self.our_info().version >= info.version
            ||| self.neighbours.dom().contains(info.prefix)
                && self.neighbours[info.prefix].sec_info.version >= info.version
        }
    }

    /// The chain with an event that has to wait, if we are the one who sent it.
    pub open spec fn with_cached(self, event: EventModel, sender: PublicId) -> ChainModel {
        if sender == self.our_id {
            ChainModel { event_cache: self.event_cache.insert(event), ..self }
        } else {
            self
        }
    }

    /// Handles a change of the membership that was agreed on.
    pub open spec fn churn_step(self, event: EventModel, proofs: ProofMap) -> Step<()> {
        if !(event is AddElder) && !(event is RemoveElder) {
            (self, Err(RoutingError::InvalidStateForOperation))
        } else if !self.can_handle(event) {
            (self.with_cached(event, self.our_id), Ok(()))
        } else if self.completed.contains(event) {
            (self, Ok(()))
        } else {
            (ChainModel { accumulator: self.accumulator.insert(event, proofs), ..self }, Ok(()))
        }
    }

    /// The signatures that an event has so far.
    pub open spec fn proofs_of(self, event: EventModel) -> ProofMap {
        if self.accumulator.dom().contains(event) {
            self.accumulator[event]
        } else {
            ProofMap::empty()
        }
    }

    /// Handles a vote for an event.
    pub open spec fn vote_step(self, event: EventModel, proof: Proof) -> ChainModel {
        if self.can_skip(event) {
            self.with_extra_proof(event->SectionInfo_0, proof)
        } else if !self.can_handle(event) {
            self.with_cached(event, proof.pub_id)
        } else if self.completed.contains(event) {
            self
        } else {
            ChainModel {
                accumulator: self.accumulator.insert(
                    event,
                    self.proofs_of(event).insert(proof.pub_id, proof.sig),
                ),
                ..self
            }
        }
    }

    /// The neighbour `p` is in the version `info`, and lacks a signature by `id`.
    pub open spec fn lacks_proof(self, p: Prefix, info: SectionModel, id: PublicId) -> bool {
        &&& self.neighbours.dom().contains(p)
        &&& self.neighbours[p].sec_info == info
        &&& !self.neighbours[p].proofs.dom().contains(id)
    }

    /// What is known of the neighbour `p` after another signature for `info` came in: it is added
    /// unless one of the neighbours before `p` lacked it.
    pub open spec fn extra_proof_at(self, p: Prefix, info: SectionModel, proof: Proof) ->
        NeighbourModel {
        let n = self.neighbours[p];
        if n.sec_info == info && !(exists|q: Prefix|
            key_less::<Prefix>(q, p) && #[trigger] self.lacks_proof(q, info, proof.pub_id)) {
            NeighbourModel { proofs: n.proofs.insert(proof.pub_id, proof.sig), ..n }
        } else {
            n
        }
    }

    /// The chain with another signature for a known neighbour.
    pub open spec fn with_proof_added(self, info: SectionModel, proof: Proof) -> ChainModel {
        ChainModel {
            neighbours: Map::new(
                |p: Prefix| self.neighbours.dom().contains(p),
                |p: Prefix| self.extra_proof_at(p, info, proof),
            ),
            ..self
        }
    }

    /// The chain after another signature for a known neighbour came in.
    pub open spec fn with_extra_proof(self, info: SectionModel, proof: Proof) -> ChainModel {
        let added = self.with_proof_added(info, proof);
        if exists|p: Prefix| #[trigger] self.lacks_proof(p, info, proof.pub_id) {
            added.cleaned(Some(info.prefix))
        } else {
            added
        }
    }

    /// The neighbouring section with the first prefix that is compatible with that of `info`.
    pub open spec fn compatible_neighbour(self, info: SectionModel) -> Option<SectionModel> {
        match find_first(self.keys(), |p: Prefix| p.compatible(info.prefix)) {
            Some(p) => Some(self.neighbours[p].sec_info),
            None => None,
        }
    }

    /// `known` is at least as new as `info`, and its prefix is compatible.
    pub open spec fn outdates(known: SectionModel, info: SectionModel) -> bool {
        info.prefix.compatible(known.prefix) && known.version >= info.version
    }

    /// The section `info` can take effect: we know no newer one, a quorum of our section has signed
    /// it, and if it is our own it follows the one that we have.
    pub open spec fn valid_section(self, info: SectionModel, proofs: ProofMap) -> bool {
        &&& !(self.compatible_neighbour(info) matches Some(n) && Self::outdates(n, info))
        &&& !Self::outdates(self.our_info(), info)
        &&& info.prefix.covers(self.our_name()) ==> info.follows(self.our_info())
        &&& self.our_info().quorum(proofs)
    }

    /// The event can take effect.
    pub open spec fn valid_transition(self, event: EventModel, proofs: ProofMap) -> bool {
        match event {
            EventModel::SectionInfo(info) => self.valid_section(info, proofs),
            EventModel::ProvingSections(_, _) => true,
            EventModel::OurMerge => self.our_info().quorum(proofs),
            EventModel::NeighbourMerge(_) => self.our_info().quorum(proofs),
            _ => self.state.change == PrefixChange::Stable && self.our_info().quorum(proofs),
        }
    }

    /// The first event that can take effect.
    pub open spec fn due(self) -> Option<EventModel> {
        find_first(
            sorted::<NetworkEvent>(self.accumulator.dom()),
            |e: EventModel| self.valid_transition(e, self.accumulator[e]),
        )
    }

    /// The chain with `event` marked as handled.
    pub open spec fn with_completed(self, event: EventModel) -> ChainModel {
        ChainModel {
            completed: self.completed.insert(event),
            accumulator: self.accumulator.remove(event),
            ..self
        }
    }

    /// Lets an event take effect.
    pub open spec fn effect(self, event: EventModel, proofs: ProofMap) -> Step<Option<EventModel>> {
        match event {
            EventModel::SectionInfo(info) => {
                let (next, result) = self.section_step(info, proofs);
                match result {
                    Err(e) => (next, Err(e)),
                    Ok(_) => if next.state.split_cache matches Some(c) && c.0 == info {
                        (next, Ok(None))
                    } else {
                        (next, Ok(Some(event)))
                    },
                }
            },
            EventModel::OurMerge => (
                ChainModel {
                    state: StateModel {
                        merging: self.state.merging.insert(self.state.new_info.hash),
                        change: PrefixChange::Merging,
                        ..self.state
                    },
                    ..self
                },
                Ok(Some(event)),
            ),
            EventModel::NeighbourMerge(digest) => (
                ChainModel {
                    state: StateModel {
                        merging: self.state.merging.insert(digest),
                        ..self.state
                    },
                    ..self
                },
                Ok(Some(event)),
            ),
            _ => (self, Ok(Some(event))),
        }
    }

    /// Lets the first event that can take effect do so.
    pub open spec fn poll_step(self) -> Step<Option<EventModel>> {
        match self.due() {
            None => (self, Ok(None)),
            Some(event) => self.with_completed(event).effect(event, self.accumulator[event]),
        }
    }

    /// Adds a section. The halves of our own splitting section are added together.
    pub open spec fn section_step(self, info: SectionModel, proofs: ProofMap) -> Step<()> {
        if info.prefix.extends(self.our_prefix()) {
            match self.state.split_cache {
                None => (
                    ChainModel {
                        state: StateModel { split_cache: Some((info, proofs)), ..self.state },
                        ..self
                    },
                    Ok(()),
                ),
                Some(cache) => {
                    let taken = ChainModel {
                        state: StateModel { split_cache: None, ..self.state },
                        ..self
                    };
                    if cache.0.prefix.covers(self.our_name()) {
                        taken.two_section_steps(cache, (info, proofs))
                    } else {
                        taken.two_section_steps((info, proofs), cache)
                    }
                },
            }
        } else {
            self.single_section_step(info, proofs)
        }
    }

    /// Adds a section, and if that succeeds another one.
    pub open spec fn two_section_steps(self, first: Confirmed, second: Confirmed) -> Step<()> {
        let (next, result) = self.single_section_step(first.0, first.1);
        match result {
            Err(e) => (next, Err(e)),
            Ok(_) => next.single_section_step(second.0, second.1),
        }
    }

    /// Our latest confirmed description that the signatures are a quorum of.
    pub open spec fn signing_info(self, proofs: ProofMap) -> Option<Confirmed> {
        find_last(self.state.our_infos, |x: Confirmed| x.0.quorum(proofs))
    }

    /// Adds a section to our own or to the neighbouring ones.
    pub open spec fn single_section_step(self, info: SectionModel, proofs: ProofMap) -> Step<()> {
        if info.prefix.covers(self.our_name()) {
            (self.with_own_section(info, proofs), Ok(()))
        } else {
            match self.signing_info(proofs) {
                None => (self, Err(RoutingError::InvalidMessage)),
                Some(signer) => (self.with_neighbour(info, proofs, signer.0.version), Ok(())),
            }
        }
    }

    /// The chain with a new description of our section.
    pub open spec fn with_own_section(self, info: SectionModel, proofs: ProofMap) -> ChainModel {
        ChainModel {
            state: StateModel {
                our_infos: self.state.our_infos.push((info, proofs)),
                ..self.state
            },
            is_member: self.is_member || info.members.contains(self.our_id),
            ..self
        }.cleaned(None)
    }

    /// The neighbours with another one.
    pub open spec fn neighbours_with(self, p: Prefix, n: NeighbourModel) -> ChainModel {
        ChainModel { neighbours: self.neighbours.insert(p, n), ..self }
    }

    /// The neighbour that splits off `info` is still needed for the other half.
    pub open spec fn other_half_needed(self, info: SectionModel) -> bool {
        &&& self.neighbours.dom().contains(info.prefix.parent())
        &&& self.neighbours[info.prefix.parent()].sec_info.version < info.version
        &&& self.our_prefix().adjoins(info.prefix.twin())
        &&& !self.neighbours.dom().contains(info.prefix.twin())
    }

    /// The chain with a new description of a neighbour.
    pub open spec fn with_neighbour(
        self,
        info: SectionModel,
        proofs: ProofMap,
        our_version: u64,
    ) -> ChainModel {
        let m = self.neighbours_with(
            info.prefix,
            NeighbourModel { sec_info: info, proofs, our_version },
        );
        (if m.other_half_needed(info) {
            m.neighbours_with(info.prefix.twin(), m.neighbours[info.prefix.parent()])
        } else {
            m
        }).cleaned(Some(info.prefix))
    }

    /// What is known of a neighbour, with the newest version of our section that the signatures
    /// are a quorum of.
    pub open spec fn updated(self, n: NeighbourModel) -> NeighbourModel {
        updated_by(self.state.our_infos, n)
    }

    /// The chain with the neighbours brought up to date, or only the one with the given prefix.
    pub open spec fn with_updated(self, for_pfx: Option<Prefix>) -> ChainModel {
        ChainModel {
            neighbours: Map::new(
                |p: Prefix| self.neighbours.dom().contains(p),
                |p: Prefix|
                    if for_pfx is None || for_pfx == Some(p) {
                        self.updated(self.neighbours[p])
                    } else {
                        self.neighbours[p]
                    },
            ),
            ..self
        }
    }

    /// The neighbour `p` is neither cut off from our section nor outdated by another neighbour.
    pub open spec fn keeps(self, p: Prefix) -> bool {
        &&& self.our_prefix().adjoins(p)
        &&& !exists|q: Prefix| #[trigger]
            self.neighbours.dom().contains(q) && q.compatible(p)
                && self.neighbours[q].sec_info.version > self.neighbours[p].sec_info.version
    }

    /// The chain with the neighbours brought up to date, or only the one with the given prefix,
    /// and without the neighbours that are no longer needed.
    pub open spec fn cleaned(self, for_pfx: Option<Prefix>) -> ChainModel {
        ChainModel {
            neighbours: self.with_updated(for_pfx).neighbours.restrict(
                Set::new(|p: Prefix| self.keeps(p)),
            ),
            ..self
        }
    }
}

// Splits and merges
impl ChainModel {
    /// Our section should merge.
    pub open spec fn should_merge(self) -> bool {
        self.state.needs_merge(self.min_sec_size, self.neighbour_list().to_set())
    }

    /// The members whose names agree with ours for longer than our prefix.
    pub open spec fn near(self, members: Set<PublicId>) -> Set<PublicId> {
        members.filter(
            |id: PublicId|
                common_len(self.our_name().bits(), id.xor_name().bits())
                    > self.our_prefix().bits().len(),
        )
    }

    /// A section of these members can split: both halves have enough of them.
    pub open spec fn splits(self, members: Set<PublicId>) -> bool {
        &&& self.state.change == PrefixChange::Stable
        &&& !self.should_merge()
        &&& self.near(members).len() >= self.min_sec_size + SPLIT_BUFFER
        &&& members.len() >= self.min_sec_size + SPLIT_BUFFER + self.near(members).len()
    }

    /// The bit of our name behind our prefix.
    pub open spec fn next_bit(self) -> bool {
        self.our_name().bits()[self.our_prefix().bits().len() as int]
    }

    /// The section of those members that the given prefix covers, or of those that it does not.
    pub open spec fn half(self, members: Set<PublicId>, ours: bool) -> SectionModel {
        let prefix = self.our_prefix().child(self.next_bit());
        if ours {
            SectionModel::next(
                members.filter(|id: PublicId| prefix.covers(id.xor_name())),
                prefix,
                Some(self.state.new_info),
            )
        } else {
            SectionModel::next(
                members.filter(|id: PublicId| !prefix.covers(id.xor_name())),
                self.our_prefix().child(!self.next_bit()),
                Some(self.state.new_info),
            )
        }
    }

    /// The chain with another latest description of our section.
    pub open spec fn with_new_info(self, info: SectionModel, change: PrefixChange) -> ChainModel {
        ChainModel { state: StateModel { new_info: info, change, ..self.state }, ..self }
    }

    /// The section after the one that we have, with other members.
    pub open spec fn next_info(self, members: Set<PublicId>) -> SectionModel {
        SectionModel::next(members, self.state.new_info.prefix, Some(self.state.new_info))
    }

    /// Adds a member, and splits our section if it can.
    pub open spec fn add_step(self, id: PublicId) -> (ChainModel, Seq<SectionModel>) {
        let members = self.state.new_info.members.insert(id);
        if self.splits(members) {
            (
                self.with_new_info(self.half(members, true), PrefixChange::Splitting),
                seq![self.half(members, true), self.half(members, false)],
            )
        } else {
            let info = self.next_info(members);
            (self.with_new_info(info, self.state.change), seq![info])
        }
    }

    /// Removes a member, and starts to merge our section if it has become too small.
    pub open spec fn remove_step(self, id: PublicId) -> ChainModel {
        let info = self.next_info(self.state.new_info.members.remove(id));
        self.with_new_info(
            info,
            if info.members.len() < self.min_sec_size {
                PrefixChange::Merging
            } else {
                self.state.change
            },
        )
    }

    /// The sibling of our section is known, and both are ready to merge.
    pub open spec fn can_merge(self) -> bool {
        let twin = self.our_prefix().twin();
        self.neighbours.dom().contains(twin) && self.state.can_merge(self.neighbours[twin].sec_info)
    }

    /// The chain after our section has merged with its sibling.
    pub open spec fn merge_step(self) -> ChainModel {
        ChainModel {
            state: self.state.with_merged(self.neighbours[self.our_prefix().twin()].sec_info),
            ..self
        }
    }

    /// A neighbouring section, or one that we have signed, confirms `info` or is `info`.
    pub open spec fn valid_neighbour(self, info: SectionModel, proofs: ProofMap) -> bool {
        ||| self.compatible_neighbour(info) matches Some(n) && (n == info || n.confirms(
            info,
            proofs,
        ))
        ||| exists|e: EventModel| #[trigger] self.signed(e) && e.confirms(info, proofs)
    }

    /// `v` is the least version of our section that any other section knows, or zero where none
    /// knows any.
    pub open spec fn is_least_known(self, v: u64) -> bool {
        if self.their_knowledge.dom() == Set::<Prefix>::empty() {
            v == 0
        } else {
            &&& exists|p: Prefix| #[trigger]
                self.their_knowledge.dom().contains(p) && self.their_knowledge[p] == v
            &&& forall|p: Prefix| #[trigger]
                self.their_knowledge.dom().contains(p) ==> v <= self.their_knowledge[p]
        }
    }

    /// The least version of our section that any other section knows.
    pub open spec fn least_known(self) -> u64 {
        choose|v: u64| self.is_least_known(v)
    }

    /// There is only one least version.
    pub proof fn least_known_unique(self, v: u64, w: u64)
        requires
            self.is_least_known(v),
            self.is_least_known(w),
        ensures
            v == w,
    {
    }

    /// The chain after a change of our prefix is complete.
    pub open spec fn finalise_step(self) -> ChainModel {
        let trimmed = ChainModel {
            state: StateModel {
                our_infos: self.state.infos_from(self.least_known()),
                ..self.state
            },
            ..self
        }.cleaned(None);
        ChainModel {
            state: StateModel {
                change: PrefixChange::Stable,
                merging: Set::empty(),
                ..trimmed.state
            },
            accumulator: Map::empty(),
            completed: Set::empty(),
            event_cache: Set::empty(),
            ..trimmed
        }
    }

    /// The events that we have to vote for again after a change of our prefix.
    pub open spec fn events_to_repeat(self) -> Set<EventModel> {
        Set::new(
            |e: EventModel|
                {
                    ||| self.signed(e) && !self.completed.contains(e)
                    ||| self.event_cache.contains(e)
                    ||| e matches EventModel::NeighbourMerge(digest) && self.state.merging.contains(
                        digest,
                    )
                },
        )
    }
}

// Trust
impl ChainModel {
    /// Some neighbouring section has the member `id`.
    pub open spec fn in_neighbour(self, id: PublicId) -> bool {
        exists|p: Prefix| #[trigger]
            self.neighbours.dom().contains(p) && self.neighbours[p].sec_info.members.contains(id)
    }

    /// The node is a member of our section or of a neighbouring one.
    pub open spec fn knows_peer(self, id: PublicId) -> bool {
        ||| self.in_neighbour(id)
        ||| self.our_info().members.contains(id)
        ||| self.state.new_info.members.contains(id)
    }

    /// `known` is `info` or its direct successor.
    pub open spec fn vouches(known: SectionModel, info: SectionModel) -> bool {
        known == info || known.follows(info)
    }

    /// One of our confirmed descriptions vouches for `info`.
    pub open spec fn own_vouches(self, info: SectionModel) -> bool {
        exists|i: int|
            0 <= i < self.state.our_infos.len() && Self::vouches(
                (#[trigger] self.state.our_infos[i]).0,
                info,
            )
    }

    /// One of the neighbouring sections vouches for `info`.
    pub open spec fn neighbour_vouches(self, info: SectionModel) -> bool {
        exists|p: Prefix| #[trigger]
            self.neighbours.dom().contains(p) && Self::vouches(self.neighbours[p].sec_info, info)
    }

    /// A section that we have signed vouches for `info`.
    pub open spec fn signed_vouches(self, info: SectionModel) -> bool {
        exists|known: SectionModel| #[trigger]
            self.signed(EventModel::SectionInfo(known)) && Self::vouches(known, info)
    }

    /// We know the section `info`, or if `check_signed` we have at least signed it.
    pub open spec fn trusts(self, info: SectionModel, check_signed: bool) -> bool {
        ||| check_signed && self.signed_vouches(info)
        ||| if info.prefix.covers(self.our_name()) {
            self.own_vouches(info)
        } else {
            self.neighbour_vouches(info)
        }
    }

    /// We have signed a section that outdates `info`.
    pub open spec fn signed_outdates(self, info: SectionModel) -> bool {
        exists|known: SectionModel| #[trigger]
            self.signed(EventModel::SectionInfo(known)) && Self::outdates(known, info)
    }

    /// We know a section that outdates `info`.
    pub open spec fn known_outdates(self, info: SectionModel) -> bool {
        if info.prefix.covers(self.our_name()) {
            exists|i: int|
                0 <= i < self.state.our_infos.len() && Self::outdates(
                    (#[trigger] self.state.our_infos[i]).0,
                    info,
                )
        } else {
            exists|p: Prefix| #[trigger]
                self.neighbours.dom().contains(p) && Self::outdates(
                    self.neighbours[p].sec_info,
                    info,
                )
        }
    }

    /// We do not know the section `info` yet.
    pub open spec fn finds_new(self, info: SectionModel) -> bool {
        !self.signed_outdates(info) && !self.known_outdates(info)
    }

    /// The first neighbouring section that vouches for `info`.
    pub open spec fn vouching_neighbour(self, info: SectionModel) -> Option<Prefix> {
        find_first(self.keys(), |p: Prefix| Self::vouches(self.neighbours[p].sec_info, info))
    }

    /// The sections that lead from `info` to our own: none where it is our own, else its successor
    /// where that is what we know, and the version of our section that has signed it.
    pub open spec fn way_home(self, info: SectionModel) -> Result<Seq<ProvingModel>, RoutingError> {
        if info.prefix.covers(self.our_name()) {
            Ok(Seq::empty())
        } else {
            match self.vouching_neighbour(info) {
                None => Err(RoutingError::UnknownPrevHop),
                Some(p) => {
                    let n = self.neighbours[p];
                    match self.state.info_with_version(n.our_version) {
                        None => Err(RoutingError::InvalidStateForOperation),
                        Some(x) => {
                            let signer = ProvingModel { sec_info: x.0, sigs: Some(n.proofs) };
                            Ok(
                                if n.sec_info.follows(info) {
                                    seq![ProvingModel { sec_info: n.sec_info, sigs: None }, signer]
                                } else {
                                    seq![signer]
                                },
                            )
                        },
                    }
                },
            }
        }
    }

    /// The version of our section that the next hop towards `dst` knows.
    pub open spec fn next_hop_version(self, dst: XorName) -> u64 {
        match find_first(
            sorted::<Prefix>(self.their_knowledge.dom()),
            |p: Prefix|
                common_len(p.bits(), dst.bits()) > common_len(self.our_prefix().bits(), dst.bits()),
        ) {
            Some(p) => self.their_knowledge[p],
            None => self.state.our_infos[0].0.version,
        }
    }

    /// The sections that lead from version `from` of our section to what the next hop towards
    /// `dst` knows, and on to our latest one.
    pub open spec fn way_on(self, from: u64, dst: XorName) -> Seq<ProvingModel> {
        let ours = self.our_info().version;
        if self.our_prefix().covers(dst) {
            self.state.links(from, ours)
        } else {
            let to = self.next_hop_version(dst);
            self.state.links(from, to) + self.state.links(to, ours)
        }
    }

    /// The sections that vouch for `info` on the way to `dst`.
    pub open spec fn proving_sections(self, info: SectionModel, dst: XorName) -> Result<
        Seq<ProvingModel>,
        RoutingError,
    > {
        match self.way_home(info) {
            Err(e) => Err(e),
            Ok(head) => {
                let from = if head.len() > 0 {
                    head.last().sec_info.version
                } else {
                    info.version
                };
                Ok(head + self.way_on(from, dst))
            },
        }
    }

    /// The message without the proving sections behind the last one that we trust, and whether
    /// there is nothing left that we do not trust.
    pub open spec fn trusted_part(self, msg: MessageModel) -> (MessageModel, bool)
        decreases msg.proving_sections.len(),
    {
        match msg.last_hop() {
            None => (msg, true),
            Some(hop) => if self.trusts(hop, false) {
                (msg, true)
            } else if msg.proving_sections.len() > 0 {
                self.trusted_part(
                    MessageModel { proving_sections: msg.proving_sections.drop_last(), ..msg },
                )
            } else {
                (msg, false)
            },
        }
    }

    /// The message with the proving sections for its next hop.
    pub open spec fn extend_step(self, msg: MessageModel) -> (
        MessageModel,
        Result<(), RoutingError>,
    ) {
        let (part, known) = self.trusted_part(msg);
        if !known {
            (part, Err(RoutingError::UnknownPrevHop))
        } else {
            match part.last_hop() {
                None => (part, Ok(())),
                Some(hop) => match self.proving_sections(hop, msg.dst.xor_name()) {
                    Err(e) => (part, Err(e)),
                    Ok(sections) => (
                        MessageModel {
                            proving_sections: part.proving_sections + sections,
                            ..part
                        },
                        Ok(()),
                    ),
                },
            }
        }
    }
}

/// The elements of a sequence that are in a set.
pub open spec fn only<T>(s: Seq<T>, set: Set<T>) -> Seq<T>
    decreases s.len(),
{
    if s.len() == 0 {
        Seq::empty()
    } else {
        let rest = only(s.drop_last(), set);
        if set.contains(s.last()) {
            rest.push(s.last())
        } else {
            rest
        }
    }
}

/// Everything other than `x`.
pub open spec fn all_but<T>(x: T) -> Set<T> {
    Set::new(|y: T| y != x)
}

/// The elements of a sequence other than `x`.
pub open spec fn without<T>(s: Seq<T>, x: T) -> Seq<T> {
    only(s, all_but(x))
}

/// The first `count` elements of a sequence, or all where there are fewer.
pub open spec fn at_most<T>(s: Seq<T>, count: usize) -> Seq<T> {
    if count < s.len() {
        s.take(count as int)
    } else {
        s
    }
}

/// The names that are referred to.
pub open spec fn peer_names(peers: Seq<&XorName>) -> Set<XorName> {
    peers.map_values(|n: &XorName| *n).to_set()
}

/// The number of nodes that a message is delivered to in a section of `n` nodes: a third of them,
/// rounded up.
pub open spec fn group_size(n: nat) -> nat {
    (n + 2) / 3
}

// Routing
impl ChainModel {
    /// The section with the given prefix: our own, or else a neighbouring one.
    pub open spec fn section(self, p: Prefix) -> SectionModel {
        if p == self.our_prefix() {
            self.our_info()
        } else {
            self.neighbours[p].sec_info
        }
    }

    /// The names in the section with the given prefix, in ascending order.
    pub open spec fn names_in(self, p: Prefix) -> Seq<XorName> {
        sorted::<XorName>(self.section(p).names())
    }

    /// The prefixes of all known sections, ours at the end.
    pub open spec fn all_prefixes(self) -> Seq<Prefix> {
        self.keys().push(self.our_prefix())
    }

    /// The names in the given sections, those of each section in the order of their distances
    /// from `name`.
    pub open spec fn names_near(self, sections: Seq<Prefix>, name: XorName) -> Seq<XorName>
        decreases sections.len(),
    {
        if sections.len() == 0 {
            Seq::empty()
        } else {
            self.names_near(sections.drop_last(), name) + by_distance(
                self.names_in(sections.last()),
                name,
            )
        }
    }

    /// The names closest to `name` that we are connected to.
    pub open spec fn closest_known(self, name: XorName, count: usize, peers: Set<XorName>) -> Seq<
        XorName,
    > {
        at_most(
            only(self.names_near(by_distance(self.all_prefixes(), name), name), peers),
            count,
        )
    }

    /// We are among the closest nodes to `name`.
    pub open spec fn is_close(self, name: XorName, count: usize, peers: Set<XorName>) -> bool {
        self.closest_known(name, count, peers).contains(self.our_name())
    }

    /// The first neighbouring section whose prefix covers `name`, or ours if it does.
    pub open spec fn section_of(self, name: XorName) -> Option<SectionModel> {
        if self.our_prefix().covers(name) {
            Some(self.our_info())
        } else {
            match find_first(self.keys(), |p: Prefix| p.covers(name)) {
                Some(p) => Some(self.neighbours[p].sec_info),
                None => None,
            }
        }
    }

    /// The section that should hold `name` does.
    pub open spec fn has_name(self, name: XorName) -> bool {
        self.section_of(name) matches Some(info) && info.names().contains(name)
    }

    /// The prefix belongs to a known section, ours or a neighbouring one, that has members.
    pub open spec fn is_inhabited(self, p: Prefix) -> bool {
        (p == self.our_prefix() || self.neighbours.dom().contains(p)) && self.section(p).members
            != Set::<PublicId>::empty()
    }

    /// No known section has members.
    pub open spec fn is_deserted(self) -> bool {
        forall|q: Prefix| !#[trigger] self.is_inhabited(q)
    }

    /// `p` belongs to the closest section to `name` that has members. If there is none, `p` is our
    /// prefix.
    pub open spec fn is_closest_prefix(self, p: Prefix, name: XorName) -> bool {
        &&& self.is_inhabited(p) || self.is_deserted() && p == self.our_prefix()
        &&& forall|q: Prefix| #[trigger]
            self.is_inhabited(q) ==> not_farther(name.bits(), p.bits(), q.bits())
    }

    /// The prefixes of all known sections in the order of their distances from `name`.
    pub open spec fn prefixes_near(self, name: XorName) -> Seq<Prefix> {
        by_distance(seq![self.our_prefix()] + self.keys(), name)
    }

    /// We are connected to at least a third of the section.
    pub open spec fn is_reachable(self, p: Prefix, peers: Set<XorName>) -> bool {
        only(self.names_in(p), peers).len() * 3 >= self.section(p).names().len()
    }

    /// Where a message to `target` is sent on to: the nodes of the closest section that we are
    /// well connected to, in the order of their distances, and how many of them should get it.
    pub open spec fn next_hops(self, target: XorName, peers: Set<XorName>) -> Result<
        (Seq<XorName>, nat),
        Error,
    > {
        match find_first(self.prefixes_near(target), |p: Prefix| self.is_reachable(p, peers)) {
            None => Err(Error::CannotRoute),
            Some(p) => Ok(
                (
                    without(
                        by_distance(only(self.names_in(p), peers), target),
                        self.our_name(),
                    ),
                    group_size(self.section(p).names().len()),
                ),
            ),
        }
    }

    /// The names in those of the given sections whose prefixes are compatible with `prefix`.
    pub open spec fn names_under(self, sections: Seq<Prefix>, prefix: Prefix) -> Seq<XorName>
        decreases sections.len(),
    {
        if sections.len() == 0 {
            Seq::empty()
        } else {
            let rest = self.names_under(sections.drop_last(), prefix);
            if prefix.compatible(sections.last()) {
                rest + self.names_in(sections.last())
            } else {
                rest
            }
        }
    }

    /// All of the given nodes, and their number.
    pub open spec fn all_of(names: Seq<XorName>) -> Result<(Seq<XorName>, nat), Error> {
        Ok((names, names.len()))
    }

    /// Where a message to a single node is sent on to.
    pub open spec fn node_targets(self, name: XorName, peers: Set<XorName>) -> Result<
        (Seq<XorName>, nat),
        Error,
    > {
        if name == self.our_name() {
            Ok((Seq::empty(), 0))
        } else if self.has_name(name) && peers.contains(name) {
            Ok((seq![name], 1))
        } else {
            self.next_hops(name, peers)
        }
    }

    /// Where a message to the section or to the group that a name belongs to is sent on to.
    pub open spec fn group_targets(self, name: XorName, peers: Set<XorName>) -> Result<
        (Seq<XorName>, nat),
        Error,
    > {
        if self.our_prefix().covers(name) {
            Self::all_of(
                only(sorted::<XorName>(self.our_info().names().remove(self.our_name())), peers),
            )
        } else {
            self.next_hops(name, peers)
        }
    }

    /// Where a message to all sections under a prefix is sent on to.
    pub open spec fn prefix_targets(self, prefix: Prefix, peers: Set<XorName>) -> Result<
        (Seq<XorName>, nat),
        Error,
    > {
        if !prefix.compatible(self.our_prefix()) {
            self.next_hops(prefix.lowest_name(), peers)
        } else if !covered(prefix.bits(), self.neighbours.dom().insert(self.our_prefix())) {
            Err(Error::CannotRoute)
        } else {
            Self::all_of(
                without(
                    only(self.names_under(self.all_prefixes(), prefix), peers),
                    self.our_name(),
                ),
            )
        }
    }

    /// Where a message to an authority is sent on to, and how many of those nodes should get it.
    pub open spec fn targets_of(self, dst: Authority, peers: Set<XorName>) -> Result<
        (Seq<XorName>, nat),
        Error,
    > {
        match dst {
            Authority::ManagedNode(name) => self.node_targets(name, peers),
            Authority::Client { client_id, proxy_node_name } => self.node_targets(
                proxy_node_name,
                peers,
            ),
            Authority::ClientManager(name) => self.group_targets(name, peers),
            Authority::NaeManager(name) => self.group_targets(name, peers),
            Authority::NodeManager(name) => self.group_targets(name, peers),
            Authority::Section(name) => self.group_targets(name, peers),
            Authority::PrefixSection(prefix) => self.prefix_targets(prefix, peers),
        }
    }

    /// We are a part of the authority.
    pub open spec fn is_in(self, auth: Authority, peers: Set<XorName>) -> bool {
        match auth {
            Authority::Client { client_id, proxy_node_name } => false,
            Authority::ManagedNode(name) => name == self.our_name(),
            Authority::ClientManager(name) => self.is_close(name, self.min_sec_size, peers),
            Authority::NaeManager(name) => self.is_close(name, self.min_sec_size, peers),
            Authority::NodeManager(name) => self.is_close(name, self.min_sec_size, peers),
            Authority::Section(name) => self.our_prefix().covers(name),
            Authority::PrefixSection(prefix) => self.our_prefix().compatible(prefix),
        }
    }

    /// The number of members that the sections with the given prefixes have, without us.
    pub open spec fn others_in(self, sections: Seq<Prefix>) -> nat
        decreases sections.len(),
    {
        if sections.len() == 0 {
            0
        } else {
            self.others_in(sections.drop_last()) + self.section(sections.last()).members.remove(
                self.our_id,
            ).len()
        }
    }

    /// The number of members of all known sections, without us.
    pub open spec fn size(self) -> nat {
        self.others_in(self.all_prefixes())
    }

    /// `p` is the shortest of the known prefixes: ours where it is one of the shortest, else the
    /// first one of them.
    pub open spec fn is_min_len_prefix(self, p: Prefix) -> bool {
        &&& p == self.our_prefix() || self.neighbours.dom().contains(p)
        &&& p.bits().len() <= self.our_prefix().bits().len()
        &&& p.bits().len() == self.our_prefix().bits().len() ==> p == self.our_prefix()
        &&& forall|q: Prefix| #[trigger]
            self.neighbours.dom().contains(q) ==> p.bits().len() <= q.bits().len()
        &&& forall|q: Prefix| #[trigger]
            self.neighbours.dom().contains(q) && q.bits().len() == p.bits().len() && p
                != self.our_prefix() ==> p == q || key_less::<Prefix>(p, q)
    }
}

} // verus!
