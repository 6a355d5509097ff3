//! The data chain of a section.

use crate::candidate::{Candidate, XorTargetInterval};
use crate::chain_model::{updated_by, ChainModel, SPLIT_BUFFER};
use crate::codes::models;
use crate::error::RoutingError;
use crate::id::PublicId;
use crate::network_event::{EventModel, NetworkEvent, OnlinePayload};
use crate::order::{key_less, lex_asymmetric, Checked, Coded};
use crate::ordered::{ascending, sorted, OrderedMap, OrderedSet};
use crate::prefix::Prefix;
use crate::proof_set::{Proof, ProofSet};
use crate::section_info::{GenesisPfxInfo, NeighbourSigs, SectionInfo, SectionModel};
use crate::seqs::{find_first_at, find_first_none, find_last_at, find_last_none};
use crate::seqs::{push_contains, take_next};
use crate::sha3::Digest256;
use crate::shared_state::{history, Confirmed, PrefixChange, SharedState};
use crate::xor_name::common_len_props;
use vstd::prelude::*;

verus! {

/// The data chain of a section.
pub struct Chain {
    /// The number of nodes that a section should have at least.
    min_sec_size: usize,
    /// The identity of this node.
    our_id: PublicId,
    /// The shared state of the section.
    state: SharedState,
    /// Whether this node is a member of the section yet.
    is_member: bool,
    /// What is known of the neighbouring sections, by their prefixes. After a split, the latest
    /// known description of a neighbour can be the one of the section that has split, so its prefix
    /// is not always the one that it is stored under.
    neighbour_infos: OrderedMap<Prefix, NeighbourSigs>,
    /// The versions of our section that other sections know.
    their_knowledge: OrderedMap<Prefix, u64>,
    /// The events that were not handled yet, with the signatures that were collected so far.
    chain_accumulator: OrderedMap<NetworkEvent, ProofSet>,
    /// The events that were handled. Further votes for them are ignored.
    completed_events: OrderedSet<NetworkEvent>,
    /// The events that have to wait for a split or merge.
    event_cache: OrderedSet<NetworkEvent>,
    /// The node that is about to join our section.
    candidate: Candidate,
}

impl View for Chain {
    type V = ChainModel;

    closed spec fn view(&self) -> ChainModel {
        ChainModel {
            min_sec_size: self.min_sec_size,
            our_id: self.our_id,
            state: self.state@,
            is_member: self.is_member,
            neighbours: self.neighbour_infos@,
            their_knowledge: self.their_knowledge@,
            accumulator: self.chain_accumulator@,
            completed: self.completed_events@,
            event_cache: self.event_cache@,
            candidate: self.candidate,
        }
    }
}

/// Moves on to the newest of our descriptions that the signatures are a quorum of.
fn update_signed_version(nsigs: &mut NeighbourSigs, our_infos: &Vec<(SectionInfo, ProofSet)>)
    requires
        old(nsigs).inv(),
        forall|i: int| 0 <= i < our_infos@.len() ==> (#[trigger] our_infos@[i]).0.inv(),
    ensures
        final(nsigs).inv(),
        final(nsigs)@ == updated_by(history(our_infos@), old(nsigs)@),
{
    let ghost n = nsigs@;
    let ghost infos = history(our_infos@);
    let ghost p = |x: Confirmed| n.can_update(x.0);
    let mut i: usize = our_infos.len();
    while i > 0
        invariant
            nsigs.inv(),
            nsigs@ == n,
            n == old(nsigs)@,
            infos == history(our_infos@),
            i <= our_infos@.len(),
            p == (|x: Confirmed| n.can_update(x.0)),
            forall|j: int| 0 <= j < our_infos@.len() ==> (#[trigger] our_infos@[j]).0.inv(),
            forall|j: int| i <= j < infos.len() ==> !p(infos[j]),
        decreases i,
    {
        i -= 1;
        assert(our_infos@[i as int].0.inv());
        assert(infos[i as int].0 == our_infos@[i as int].0@);
        if nsigs.update_version(&our_infos[i].0) {
            proof {
                find_last_at(infos, p, i as int);
            }
            return;
        }
    }
    proof {
        find_last_none(infos, p);
    }
}

impl Chain {
    /// All parts are valid.
    spec fn parts(&self) -> bool {
        &&& self.state.inv()
        &&& self.neighbour_infos.inv()
        &&& self.their_knowledge.inv()
        &&& self.chain_accumulator.inv()
        &&& self.completed_events.inv()
        &&& self.event_cache.inv()
        &&& self@.accumulator.dom().disjoint(self@.completed)
    }

    /// All parts are valid, no handled event is waiting to be handled, and all neighbours are
    /// neighbours of our section.
    pub closed spec fn inv(&self) -> bool {
        self.parts() && self@.well_formed()
    }

    /// Moves what is known of the neighbours, or only of the one with the given prefix, on to the
    /// newest version of our section that has signed it.
    fn update_neighbour_versions(&mut self, for_pfx: Option<&Prefix>)
        requires
            old(self).parts(),
            for_pfx matches Some(p) ==> p.inv(),
        ensures
            final(self).parts(),
            final(self)@ == old(self)@.with_updated(
                match for_pfx {
                    Some(p) => Some(*p),
                    None => None,
                },
            ),
    {
        let ghost start = self@;
        match for_pfx {
            Some(pfx) => {
                if let Some(i) = self.neighbour_infos.position(pfx) {
                    proof {
                        self.neighbour_infos.lemma_inv();
                    }
                    let nsigs = self.neighbour_infos.value_mut(i);
                    update_signed_version(nsigs, &self.state.our_infos);
                }
                assert(self@.neighbours =~= start.with_updated(Some(*pfx)).neighbours);
                assert(self@.neighbours.dom() =~= start.neighbours.dom());
            },
            None => {
                let ghost keys = self.neighbour_infos.seq();
                proof {
                    self.neighbour_infos.lemma_inv();
                }
                let mut i: usize = 0;
                while i < self.neighbour_infos.len()
                    invariant
                        self.parts(),
                        keys == self.neighbour_infos.seq(),
                        keys.no_duplicates(),
                        i <= keys.len(),
                        self@ == (ChainModel { neighbours: self@.neighbours, ..start }),
                        keys.to_set() == start.neighbours.dom(),
                        self@.neighbours.dom() == start.neighbours.dom(),
                        forall|j: int|
                            0 <= j < i ==> self@.neighbours[#[trigger] keys[j]] == start.updated(
                                start.neighbours[keys[j]],
                            ),
                        forall|j: int|
                            i <= j < keys.len() ==> self@.neighbours[#[trigger] keys[j]]
                                == start.neighbours[keys[j]],
                    decreases keys.len() - i,
                {
                    let nsigs = self.neighbour_infos.value_mut(i);
                    update_signed_version(nsigs, &self.state.our_infos);
                    proof {
                        assert(keys.contains(keys[i as int]));
                        assert(self@.neighbours.dom() =~= start.neighbours.dom());
                        assert forall|j: int| 0 <= j < i + 1 implies self@.neighbours[
                            #[trigger] keys[j]
                        ] == start.updated(start.neighbours[keys[j]]) by {
                            if j < i {
                                assert(keys[j] != keys[i as int]);
                            }
                        }
                        assert forall|j: int| i + 1 <= j < keys.len() implies self@.neighbours[
                            #[trigger] keys[j]
                        ] == start.neighbours[keys[j]] by {
                            assert(keys[j] != keys[i as int]);
                        }
                    }
                    i += 1;
                }
                proof {
                    let goal = start.with_updated(None);
                    assert forall|p: Prefix| start.neighbours.dom().contains(p) implies
                        self@.neighbours[p] == goal.neighbours[p] by {
                        assert(keys.to_set().contains(p));
                        let j = choose|j: int| 0 <= j < keys.len() && keys[j] == p;
                        assert(self@.neighbours[keys[j]] == start.updated(
                            start.neighbours[keys[j]],
                        ));
                    }
                    assert(self@.neighbours =~= goal.neighbours);
                }
            },
        }
    }

    /// Returns whether the neighbour at the given position is neither cut off from our section nor
    /// outdated by another neighbour.
    fn keeps_neighbour(&self, i: usize) -> (r: bool)
        requires
            self.parts(),
            i < self.neighbour_infos.seq().len(),
        ensures
            r == self@.keeps(self.neighbour_infos.seq()[i as int]),
    {
        let ghost keys = self.neighbour_infos.seq();
        proof {
            self.neighbour_infos.lemma_inv();
        }
        let pfx = self.neighbour_infos.key_at(i);
        // A split has made the neighbour unneeded.
        if !self.state.our_prefix().is_neighbour(pfx) {
            return false;
        }
        let version = self.neighbour_infos.value_at(i).sec_info().version();
        let mut j: usize = 0;
        while j < self.neighbour_infos.len()
            invariant
                self.parts(),
                keys == self.neighbour_infos.seq(),
                keys.to_set() == self@.neighbours.dom(),
                j <= keys.len(),
                pfx.inv(),
                *pfx == keys[i as int],
                version == self@.neighbours[*pfx].sec_info.version,
                forall|k: int|
                    0 <= k < j ==> !((#[trigger] keys[k]).compatible(*pfx)
                        && self@.neighbours[keys[k]].sec_info.version > version),
            decreases keys.len() - j,
        {
            if self.neighbour_infos.key_at(j).is_compatible(pfx) && self.neighbour_infos.value_at(
                j,
            ).sec_info().version() > version {
                assert(self@.neighbours.dom().contains(keys[j as int]));
                return false;
            }
            j += 1;
        }
        proof {
            assert forall|q: Prefix| #[trigger] self@.neighbours.dom().contains(q) implies !(
            q.compatible(*pfx) && self@.neighbours[q].sec_info.version > version) by {
                assert(keys.to_set().contains(q));
                let k = choose|k: int| 0 <= k < keys.len() && keys[k] == q;
                assert(keys[k] == q);
            }
        }
        true
    }

    /// Brings the versions of our section that have signed the neighbours up to date, or only that
    /// of the neighbour with the given prefix, and removes the neighbours that are no longer
    /// needed.
    fn check_and_clean_neighbour_infos(&mut self, for_pfx: Option<&Prefix>)
        requires
            old(self).parts(),
            for_pfx matches Some(p) ==> p.inv(),
        ensures
            final(self).inv(),
            final(self)@ == old(self)@.cleaned(
                match for_pfx {
                    Some(p) => Some(*p),
                    None => None,
                },
            ),
    {
        let ghost start = self@;
        let ghost which = match for_pfx {
            Some(p) => Some(*p),
            None => None,
        };
        self.update_neighbour_versions(for_pfx);
        let ghost updated = self@;
        proof {
            self.neighbour_infos.lemma_inv();
            assert(updated.neighbours.dom() =~= start.neighbours.dom());
        }
        let ghost keys = self.neighbour_infos.seq();

        let mut to_remove: Vec<Prefix> = Vec::new();
        let mut i: usize = 0;
        while i < self.neighbour_infos.len()
            invariant
                self.parts(),
                self@ == updated,
                keys == self.neighbour_infos.seq(),
                i <= keys.len(),
                forall|j: int| 0 <= j < to_remove@.len() ==> (#[trigger] to_remove@[j]).inv(),
                forall|p: Prefix| #[trigger]
                    to_remove@.contains(p) <==> keys.take(i as int).contains(p) && !updated.keeps(p),
            decreases keys.len() - i,
        {
            let ghost before = to_remove@;
            let pfx = *self.neighbour_infos.key_at(i);
            let remove = !self.keeps_neighbour(i);
            if remove {
                to_remove.push(pfx);
            }
            proof {
                take_next(keys, i as int);
                push_contains(before, pfx);
                assert forall|p: Prefix| #[trigger] to_remove@.contains(p) <==> keys.take(i + 1).contains(p)
                    && !updated.keeps(p) by {
                    assert(before.contains(p) <==> keys.take(i as int).contains(p)
                        && !updated.keeps(p));
                }
            }
            i += 1;
        }
        assert(keys.take(i as int) =~= keys);
        proof {
            assert forall|p: Prefix| #[trigger] to_remove@.contains(p) <==> updated.neighbours.dom().contains(p)
                && !updated.keeps(p) by {
                assert(keys.contains(p) == keys.to_set().contains(p));
                assert(to_remove@.contains(p) <==> keys.take(i as int).contains(p)
                    && !updated.keeps(p));
            }
        }

        let mut k: usize = 0;
        assert(to_remove@.take(0).to_set() =~= Set::<Prefix>::empty());
        assert(updated.neighbours.remove_keys(Set::empty()) =~= updated.neighbours);
        while k < to_remove.len()
            invariant
                self.parts(),
                k <= to_remove@.len(),
                forall|j: int| 0 <= j < to_remove@.len() ==> (#[trigger] to_remove@[j]).inv(),
                self@ == (ChainModel {
                    neighbours: updated.neighbours.remove_keys(to_remove@.take(k as int).to_set()),
                    ..updated
                }),
            decreases to_remove@.len() - k,
        {
            let pfx = to_remove[k];
            assert(to_remove@[k as int].inv());
            let _ = self.neighbour_infos.remove(&pfx);
            proof {
                take_next(to_remove@, k as int);
                assert(updated.neighbours.remove_keys(to_remove@.take(k + 1).to_set())
                    =~= updated.neighbours.remove_keys(to_remove@.take(k as int).to_set()).remove(
                    pfx,
                ));
            }
            k += 1;
        }
        proof {
            assert(to_remove@.take(k as int) =~= to_remove@);
            let goal = start.cleaned(which);
            assert forall|p: Prefix| start.neighbours.dom().contains(p) implies updated.keeps(p)
                == start.keeps(p) by {
                assert(forall|q: Prefix| #[trigger]
                    start.neighbours.dom().contains(q) ==> updated.neighbours[q].sec_info
                        == start.neighbours[q].sec_info);
            }
            assert(self@.neighbours =~= goal.neighbours);
            assert(self@ =~= goal);
        }
    }
}

// Events
impl Chain {
    /// Creates the chain of a node in the section that it starts in.
    pub fn new(min_sec_size: usize, our_id: PublicId, gen_info: GenesisPfxInfo) -> (r: Chain)
        requires
            gen_info.first_info.inv(),
        ensures
            r.inv(),
            r@ == ChainModel::founded(min_sec_size, our_id, gen_info.first_info@),
    {
        let is_member = gen_info.first_info.members().contains(&our_id);
        let r = Chain {
            min_sec_size,
            our_id,
            state: SharedState::new(gen_info.first_info),
            is_member,
            neighbour_infos: OrderedMap::new(),
            their_knowledge: OrderedMap::new(),
            chain_accumulator: OrderedMap::new(),
            completed_events: OrderedSet::new(),
            event_cache: OrderedSet::new(),
            candidate: Candidate::Nobody,
        };
        r
    }

    /// Returns the neighbouring section with the first prefix that is compatible with that of `si`.
    fn compatible_neighbour_info(&self, si: &SectionInfo) -> (r: Option<&SectionInfo>)
        requires
            self.inv(),
            si.inv(),
        ensures
            match r {
                Some(n) => self@.compatible_neighbour(si@) == Some(n@) && n.inv(),
                None => self@.compatible_neighbour(si@) is None,
            },
    {
        let ghost info = si@;
        let ghost keys = self.neighbour_infos.seq();
        let ghost p = |k: Prefix| k.compatible(info.prefix);
        proof {
            self.neighbour_infos.lemma_inv();
        }
        let mut i: usize = 0;
        while i < self.neighbour_infos.len()
            invariant
                self.inv(),
                si.inv(),
                info == si@,
                keys == self.neighbour_infos.seq(),
                keys == self@.keys(),
                i <= keys.len(),
                p == (|k: Prefix| k.compatible(info.prefix)),
                forall|j: int| 0 <= j < i ==> !p(keys[j]),
            decreases keys.len() - i,
        {
            if self.neighbour_infos.key_at(i).is_compatible(si.prefix()) {
                proof {
                    find_first_at(keys, p, i as int);
                }
                return Some(self.neighbour_infos.value_at(i).sec_info());
            }
            i += 1;
        }
        proof {
            find_first_none(keys, p);
        }
        None
    }

    /// Returns whether the event can take effect. For a section this means that we know no newer
    /// one, that a quorum of our section has signed it, and that if it is our own it follows the
    /// one that we have.
    fn is_valid_transition(&self, network_event: &NetworkEvent, proofs: &ProofSet) -> (r: bool)
        requires
            self.inv(),
            network_event.inv(),
            proofs.inv(),
        ensures
            r == self@.valid_transition(network_event@, proofs@),
    {
        match network_event {
            NetworkEvent::SectionInfo(info) => {
                if let Some(n) = self.compatible_neighbour_info(info) {
                    if info.prefix().is_compatible(n.prefix()) && n.version() >= info.version() {
                        return false;
                    }
                }
                let our_info = self.state.our_info();
                if info.prefix().is_compatible(our_info.prefix()) && our_info.version()
                    >= info.version() {
                    return false;
                }
                // Our own descriptions have to form an unbroken sequence.
                if info.prefix().matches(self.our_id.name()) && !info.is_successor_of(our_info) {
                    return false;
                }
                our_info.is_quorum(proofs)
            },
            NetworkEvent::ProvingSections(_, _) => true,
            NetworkEvent::OurMerge => self.state.our_info().is_quorum(proofs),
            NetworkEvent::NeighbourMerge(_) => self.state.our_info().is_quorum(proofs),
            _ => self.state.change == PrefixChange::Stable && self.state.our_info().is_quorum(
                proofs,
            ),
        }
    }

    /// Returns whether the event can be handled at once: our prefix is not about to change, or the
    /// event is about that change.
    fn can_handle_vote(&self, event: &NetworkEvent) -> (r: bool)
        requires
            self.inv(),
            event.inv(),
        ensures
            r == self@.can_handle(event@),
    {
        match (self.state.change, event) {
            (PrefixChange::Stable, _) => true,
            (PrefixChange::Merging, NetworkEvent::OurMerge) => true,
            (PrefixChange::Merging, NetworkEvent::NeighbourMerge(_)) => true,
            (_, NetworkEvent::SectionInfo(sec_info)) => {
                !(sec_info.prefix().is_compatible(self.state.our_prefix()) && sec_info.version()
                    > self.state.new_info.version())
            },
            _ => false,
        }
    }

    /// Keeps an event for later if we are the one who sent it.
    fn cache_event(&mut self, net_event: &NetworkEvent, sender_id: &PublicId)
        requires
            old(self).inv(),
            net_event.inv(),
        ensures
            final(self).inv(),
            final(self)@ == old(self)@.with_cached(net_event@, *sender_id),
    {
        if self.our_id.is(sender_id) {
            let _ = self.event_cache.insert(net_event.clone());
        }
    }

    /// Returns whether the event is about a section that we already know in that version or a newer
    /// one.
    fn should_skip_accumulator(&self, event: &NetworkEvent) -> (r: bool)
        requires
            self.inv(),
            event.inv(),
        ensures
            r == self@.can_skip(event@),
    {
        let si = match event {
            NetworkEvent::SectionInfo(si) => si,
            _ => {
                return false;
            },
        };
        if si.prefix().matches(self.our_id.name()) && self.state.our_info().version()
            >= si.version() {
            return true;
        }
        match self.neighbour_infos.get(si.prefix()) {
            Some(nsigs) => nsigs.sec_info().version() >= si.version(),
            None => false,
        }
    }

    /// Handles an accumulated change of the membership.
    ///
    /// The signatures are not checked against the event: they were made for the change of the
    /// membership that stands behind it.
    pub fn handle_churn_event(&mut self, event: &NetworkEvent, proof_set: ProofSet) -> (r: Result<
        (),
        RoutingError,
    >)
        requires
            old(self).inv(),
            event.inv(),
            proof_set.inv(),
        ensures
            final(self).inv(),
            (final(self)@, r) == old(self)@.churn_step(event@, proof_set@),
    {
        match event {
            NetworkEvent::AddElder(_, _) => {},
            NetworkEvent::RemoveElder(_) => {},
            _ => {
                return Err(RoutingError::InvalidStateForOperation);
            },
        }

        if !self.can_handle_vote(event) {
            // It was agreed on, so it is kept as if we had sent it.
            let our_id = self.our_id;
            self.cache_event(event, &our_id);
            return Ok(());
        }

        if self.completed_events.contains(event) {
            return Ok(());
        }

        let _ = self.chain_accumulator.insert(event.clone(), proof_set);
        Ok(())
    }

    /// Handles a vote for an event.
    pub fn handle_opaque_event(&mut self, event: &NetworkEvent, proof: Proof) -> (r: Result<
        (),
        RoutingError,
    >)
        requires
            old(self).inv(),
            event.inv(),
        ensures
            final(self).inv(),
            final(self)@ == old(self)@.vote_step(event@, proof),
            r is Ok,
    {
        if self.should_skip_accumulator(event) {
            self.add_extra_proof_for_neighbour(event, proof);
            return Ok(());
        }

        if !self.can_handle_vote(event) {
            self.cache_event(event, proof.pub_id());
            return Ok(());
        }

        if self.completed_events.contains(event) {
            return Ok(());
        }

        let mut proofs = match self.chain_accumulator.get(event) {
            Some(proofs) => proofs.clone(),
            None => ProofSet::new(),
        };
        let _ = proofs.add_proof(proof);
        let _ = self.chain_accumulator.insert(event.clone(), proofs);
        Ok(())
    }

    /// Adds a section to our own or to the neighbouring ones.
    fn do_add_section_info(&mut self, sec_info: SectionInfo, proofs: ProofSet) -> (r: Result<
        (),
        RoutingError,
    >)
        requires
            old(self).inv(),
            sec_info.inv(),
            proofs.inv(),
        ensures
            final(self).inv(),
            (final(self)@, r) == old(self)@.single_section_step(sec_info@, proofs@),
    {
        let ghost start = self@;
        let pfx = *sec_info.prefix();
        if pfx.matches(self.our_id.name()) {
            if !self.is_member && sec_info.members().contains(&self.our_id) {
                self.is_member = true;
            }
            let ghost before = self.state.our_infos@;
            let ghost info = (sec_info@, proofs@);
            self.state.our_infos.push((sec_info, proofs));
            proof {
                assert(self@.state.our_infos =~= start.state.our_infos.push(info));
                assert forall|i: int| 0 <= i < self.state.our_infos@.len() implies (
                #[trigger] self.state.our_infos@[i]).0.inv() && self.state.our_infos@[i].1.inv() by {
                    if i < before.len() {
                        assert(self.state.our_infos@[i] == before[i]);
                    }
                }
            }
            self.check_and_clean_neighbour_infos(None);
        } else {
            let parent = sec_info.prefix().popped();
            let sibling = sec_info.prefix().sibling();
            let new_version = sec_info.version();
            let our_version = match self.signing_version(&proofs) {
                Some(version) => version,
                None => {
                    return Err(RoutingError::InvalidMessage);
                },
            };
            let nsigs = NeighbourSigs::with_version(sec_info, proofs, our_version);
            let _ = self.neighbour_infos.insert(pfx, nsigs);

            // If this has split an existing neighbour and its other half is needed too, that half
            // goes on with what was known of the whole.
            let mut half: Option<NeighbourSigs> = None;
            if let Some(psigs) = self.neighbour_infos.get(&parent) {
                if psigs.sec_info().version() < new_version && self.state.our_prefix().is_neighbour(
                    &sibling,
                ) && !self.neighbour_infos.contains_key(&sibling) {
                    half = Some(psigs.clone());
                }
            }
            if let Some(ssigs) = half {
                let _ = self.neighbour_infos.insert(sibling, ssigs);
            }
            self.check_and_clean_neighbour_infos(Some(&pfx));
        }
        Ok(())
    }

    /// Returns the version of our latest confirmed description that the signatures are a quorum of.
    fn signing_version(&self, proofs: &ProofSet) -> (r: Option<u64>)
        requires
            self.parts(),
            proofs.inv(),
        ensures
            match r {
                Some(v) => self@.signing_info(proofs@) matches Some(x) && x.0.version == v,
                None => self@.signing_info(proofs@) is None,
            },
    {
        let ghost signed = proofs@;
        let ghost infos = self@.state.our_infos;
        let ghost p = |x: Confirmed| x.0.quorum(signed);
        let mut i: usize = self.state.our_infos.len();
        while i > 0
            invariant
                self.parts(),
                proofs.inv(),
                signed == proofs@,
                infos == self@.state.our_infos,
                i <= infos.len(),
                p == (|x: Confirmed| x.0.quorum(signed)),
                forall|j: int| i <= j < infos.len() ==> !p(infos[j]),
            decreases i,
        {
            i -= 1;
            assert(self.state.our_infos@[i as int].0.inv());
            assert(infos[i as int].0 == self.state.our_infos@[i as int].0@);
            let our_info = &self.state.our_infos[i].0;
            if our_info.is_quorum(proofs) {
                proof {
                    find_last_at(infos, p, i as int);
                }
                return Some(our_info.version());
            }
        }
        proof {
            find_last_none(infos, p);
        }
        None
    }

    /// Adds a section. The halves of our own splitting section are added together, ours first, so
    /// that its sibling is a neighbour when it is added.
    pub fn add_section_info(&mut self, sec_info: SectionInfo, proofs: ProofSet) -> (r: Result<
        (),
        RoutingError,
    >)
        requires
            old(self).inv(),
            sec_info.inv(),
            proofs.inv(),
        ensures
            final(self).inv(),
            (final(self)@, r) == old(self)@.section_step(sec_info@, proofs@),
    {
        if sec_info.prefix().is_extension_of(self.state.our_prefix()) {
            let ghost start = self@;
            let cache = self.state.split_cache.take();
            proof {
                start.stays_well_formed(self@);
            }
            match cache {
                None => {
                    self.state.split_cache = Some((sec_info, proofs));
                    proof {
                        start.stays_well_formed(self@);
                    }
                    return Ok(());
                },
                Some((cache_info, cache_proofs)) => {
                    if cache_info.prefix().matches(self.our_id.name()) {
                        self.do_add_section_info(cache_info, cache_proofs)?;
                        self.do_add_section_info(sec_info, proofs)?;
                    } else {
                        self.do_add_section_info(sec_info, proofs)?;
                        self.do_add_section_info(cache_info, cache_proofs)?;
                    }
                    return Ok(());
                },
            }
        }
        self.do_add_section_info(sec_info, proofs)
    }

    /// Accepts another signature for a neighbour that we already know. This keeps the neighbours
    /// signed by the latest version of our section.
    fn add_extra_proof_for_neighbour(&mut self, event: &NetworkEvent, proof: Proof)
        requires
            old(self).inv(),
            event.inv(),
        ensures
            final(self).inv(),
            event@ is SectionInfo ==> final(self)@ == old(self)@.with_extra_proof(
                event@->SectionInfo_0,
                proof,
            ),
            !(event@ is SectionInfo) ==> final(self)@ == old(self)@,
    {
        let si = match event {
            NetworkEvent::SectionInfo(si) => si,
            _ => {
                return;
            },
        };
        if self.add_proof_to_neighbours(si, proof) {
            self.check_and_clean_neighbour_infos(Some(si.prefix()));
        }
    }

    /// Adds a signature to the neighbours that are in the given version, up to the first one that
    /// lacked it. Returns whether there was one.
    fn add_proof_to_neighbours(&mut self, si: &SectionInfo, proof: Proof) -> (r: bool)
        requires
            old(self).inv(),
            si.inv(),
        ensures
            final(self).inv(),
            final(self)@ == old(self)@.with_proof_added(si@, proof),
            r == exists|p: Prefix| #[trigger] old(self)@.lacks_proof(p, si@, proof.pub_id),
    {
        let ghost start = self@;
        let ghost info = si@;
        let ghost id = proof.pub_id;
        let ghost keys = self.neighbour_infos.seq();
        proof {
            self.neighbour_infos.lemma_inv();
        }
        let mut i: usize = 0;
        while i < self.neighbour_infos.len()
            invariant
                self.inv(),
                si.inv(),
                info == si@,
                id == proof.pub_id,
                keys == self.neighbour_infos.seq(),
                keys.no_duplicates(),
                ascending::<Prefix>(keys),
                i <= keys.len(),
                start == old(self)@,
                start.well_formed(),
                self@ == (ChainModel { neighbours: self@.neighbours, ..start }),
                keys.to_set() == start.neighbours.dom(),
                self@.neighbours.dom() == start.neighbours.dom(),
                forall|j: int| 0 <= j < i ==> !start.lacks_proof(#[trigger] keys[j], info, id),
                forall|j: int|
                    0 <= j < i ==> self@.neighbours[#[trigger] keys[j]] == start.extra_proof_at(
                        keys[j],
                        info,
                        proof,
                    ),
                forall|j: int|
                    i <= j < keys.len() ==> self@.neighbours[#[trigger] keys[j]]
                        == start.neighbours[keys[j]],
            decreases keys.len() - i,
        {
            let ghost key = keys[i as int];
            let ghost before = self@;
            proof {
                assert(keys.contains(key));
                assert(keys.to_set().contains(key));
                // Nothing before this neighbour lacked the signature.
                assert forall|q: Prefix| key_less::<Prefix>(q, key) implies !(
                #[trigger] start.lacks_proof(q, info, id)) by {
                    if start.lacks_proof(q, info, id) {
                        assert(keys.to_set().contains(q));
                        let j = choose|j: int| 0 <= j < keys.len() && keys[j] == q;
                        if j < i {
                            assert(!start.lacks_proof(keys[j], info, id));
                        } else if j > i {
                            assert(key_less::<Prefix>(keys[i as int], keys[j]));
                            lex_asymmetric(Prefix::code(q), Prefix::code(key));
                        } else {
                            lex_asymmetric(Prefix::code(q), Prefix::code(key));
                        }
                    }
                }
            }
            let mut added = false;
            if self.neighbour_infos.value_at(i).sec_info().same(si) {
                let nsigs = self.neighbour_infos.value_mut(i);
                added = nsigs.add_proof(proof);
            }
            proof {
                assert(self@.neighbours[key] == start.extra_proof_at(key, info, proof));
                assert(self@.neighbours.dom() =~= start.neighbours.dom());
                assert forall|j: int| 0 <= j < keys.len() && j != i implies self@.neighbours[
                    #[trigger] keys[j]
                ] == before.neighbours[keys[j]] by {
                    assert(keys[j] != key);
                }
                assert forall|p: Prefix| #[trigger]
                    self@.neighbours.dom().contains(p) implies self@.our_prefix().adjoins(p) by {
                    assert(start.neighbours.dom().contains(p));
                }
            }
            if added {
                proof {
                    assert(start.lacks_proof(key, info, id));
                    let goal = start.with_proof_added(info, proof);
                    assert forall|p: Prefix| start.neighbours.dom().contains(p) implies
                        self@.neighbours[p] == goal.neighbours[p] by {
                        assert(keys.to_set().contains(p));
                        let j = choose|j: int| 0 <= j < keys.len() && keys[j] == p;
                        if j < i {
                            assert(self@.neighbours[keys[j]] == before.neighbours[keys[j]]);
                        } else if j > i {
                            assert(key_less::<Prefix>(keys[i as int], keys[j]));
                            assert(self@.neighbours[keys[j]] == before.neighbours[keys[j]]);
                        }
                    }
                    assert(self@.neighbours =~= goal.neighbours);
                }
                return true;
            }
            assert(!start.lacks_proof(key, info, id));
            i += 1;
        }
        proof {
            let goal = start.with_proof_added(info, proof);
            assert forall|p: Prefix| start.neighbours.dom().contains(p) implies self@.neighbours[p]
                == goal.neighbours[p] && !start.lacks_proof(p, info, id) by {
                assert(keys.to_set().contains(p));
                let j = choose|j: int| 0 <= j < keys.len() && keys[j] == p;
                assert(self@.neighbours[keys[j]] == start.extra_proof_at(keys[j], info, proof));
            }
            assert(self@.neighbours =~= goal.neighbours);
        }
        false
    }

    /// Returns the first event that can take effect, and its signatures.
    fn due_event(&self) -> (r: Option<(NetworkEvent, ProofSet)>)
        requires
            self.inv(),
        ensures
            match r {
                Some(x) => {
                    &&& self@.due() == Some(x.0@)
                    &&& self@.accumulator.dom().contains(x.0@)
                    &&& x.1@ == self@.accumulator[x.0@]
                    &&& x.0.inv()
                    &&& x.1.inv()
                },
                None => self@.due() is None,
            },
    {
        let ghost m = self@;
        let ghost keys = self.chain_accumulator.seq();
        let ghost p = |e: EventModel| m.valid_transition(e, m.accumulator[e]);
        proof {
            self.chain_accumulator.lemma_inv();
        }
        let mut i: usize = 0;
        while i < self.chain_accumulator.len()
            invariant
                self.inv(),
                m == self@,
                keys == self.chain_accumulator.seq(),
                keys == sorted::<NetworkEvent>(m.accumulator.dom()),
                i <= keys.len(),
                p == (|e: EventModel| m.valid_transition(e, m.accumulator[e])),
                forall|j: int| 0 <= j < i ==> !p(keys[j]),
            decreases keys.len() - i,
        {
            let event = self.chain_accumulator.key_at(i);
            let proofs = self.chain_accumulator.value_at(i);
            if self.is_valid_transition(event, proofs) {
                proof {
                    find_first_at(keys, p, i as int);
                }
                return Some((event.clone(), proofs.clone()));
            }
            i += 1;
        }
        proof {
            find_first_none(keys, p);
        }
        None
    }

    /// Returns the next event that takes effect.
    ///
    /// If it is about a section, it also updates what is known of the sections.
    pub fn poll(&mut self) -> (r: Result<Option<NetworkEvent>, RoutingError>)
        requires
            old(self).inv(),
        ensures
            final(self).inv(),
            final(self)@ == old(self)@.poll_step().0,
            match r {
                Ok(Some(event)) => old(self)@.poll_step().1 == Ok::<_, RoutingError>(Some(event@))
                    && event.inv(),
                Ok(None) => old(self)@.poll_step().1 == Ok::<Option<EventModel>, RoutingError>(
                    None,
                ),
                Err(e) => old(self)@.poll_step().1 == Err::<Option<EventModel>, _>(e),
            },
    {
        let (event, proofs) = match self.due_event() {
            None => {
                return Ok(None);
            },
            Some((event, proofs)) => (event, proofs),
        };
        let ghost start = self@;
        let _ = self.completed_events.insert(event.clone());
        let _ = self.chain_accumulator.remove(&event);
        assert(self@ =~= start.with_completed(event@));

        match &event {
            NetworkEvent::SectionInfo(sec_info) => {
                self.add_section_info(sec_info.clone(), proofs)?;
                if let Some((cached_sec_info, _)) = &self.state.split_cache {
                    if cached_sec_info.same(sec_info) {
                        return Ok(None);
                    }
                }
            },
            NetworkEvent::OurMerge => {
                // The latest description may still be waiting for signatures, but it is the one
                // to merge with.
                let our_hash = *self.state.new_info.hash();
                let _ = self.state.merging.insert(our_hash);
                self.state.change = PrefixChange::Merging;
            },
            NetworkEvent::NeighbourMerge(digest) => {
                let _ = self.state.merging.insert(*digest);
            },
            _ => {},
        }
        Ok(Some(event))
    }
}

/// The outcome of a prefix change.
#[derive(Debug, PartialEq, Eq)]
pub struct PrefixChangeOutcome {
    /// The new genesis prefix info.
    pub gen_pfx_info: GenesisPfxInfo,
    /// The cached events that should be revoted.
    pub cached_events: OrderedSet<NetworkEvent>,
    /// The completed events.
    pub completed_events: OrderedSet<NetworkEvent>,
}

/// Returns the identities that the prefix covers, and the others.
fn partition(members: &OrderedSet<PublicId>, prefix: &Prefix) -> (r: (
    OrderedSet<PublicId>,
    OrderedSet<PublicId>,
))
    requires
        members.inv(),
        prefix.inv(),
    ensures
        r.0.inv(),
        r.1.inv(),
        r.0@ == members@.filter(|id: PublicId| prefix.covers(id.xor_name())),
        r.1@ == members@.filter(|id: PublicId| !prefix.covers(id.xor_name())),
{
    let ghost s = members.seq();
    let ghost f = |id: PublicId| prefix.covers(id.xor_name());
    let ghost g = |id: PublicId| !prefix.covers(id.xor_name());
    let mut inside: OrderedSet<PublicId> = OrderedSet::new();
    let mut outside: OrderedSet<PublicId> = OrderedSet::new();
    let mut i: usize = 0;
    assert(inside@ =~= s.take(0).to_set().filter(f));
    assert(outside@ =~= s.take(0).to_set().filter(g));
    while i < members.len()
        invariant
            members.inv(),
            prefix.inv(),
            inside.inv(),
            outside.inv(),
            s == members.seq(),
            i <= s.len(),
            f == (|id: PublicId| prefix.covers(id.xor_name())),
            g == (|id: PublicId| !prefix.covers(id.xor_name())),
            inside@ == s.take(i as int).to_set().filter(f),
            outside@ == s.take(i as int).to_set().filter(g),
        decreases s.len() - i,
    {
        let id = *members.at(i);
        if prefix.matches(id.name()) {
            let _ = inside.insert(id);
        } else {
            let _ = outside.insert(id);
        }
        proof {
            take_next(s, i as int);
            let u = s.take(i + 1).to_set();
            assert(inside@ =~= u.filter(f));
            assert(outside@ =~= u.filter(g));
        }
        i += 1;
    }
    assert(s.take(i as int) =~= s);
    (inside, outside)
}

// Splits and merges
impl Chain {
    /// Returns the minimum section size.
    pub fn min_sec_size(&self) -> (r: usize)
        ensures
            r == self@.min_sec_size,
    {
        self.min_sec_size
    }

    /// Returns the number of nodes which need to exist in each subsection of a given section to
    /// allow it to be split.
    pub fn min_split_size(&self) -> (r: usize)
        requires
            self@.min_sec_size + SPLIT_BUFFER <= usize::MAX,
        ensures
            r == self@.min_sec_size + SPLIT_BUFFER,
    {
        self.min_sec_size + SPLIT_BUFFER
    }

    /// Returns the neighbouring sections in the order of their prefixes.
    pub fn neighbour_infos(&self) -> (r: Vec<&SectionInfo>)
        requires
            self.inv(),
        ensures
            r@.map_values(|info: &SectionInfo| info@) == self@.neighbour_list(),
            forall|i: int| 0 <= i < r@.len() ==> (#[trigger] r@[i]).inv(),
    {
        let ghost keys = self.neighbour_infos.seq();
        proof {
            self.neighbour_infos.lemma_inv();
        }
        let mut r: Vec<&SectionInfo> = Vec::new();
        let mut i: usize = 0;
        while i < self.neighbour_infos.len()
            invariant
                self.inv(),
                keys == self.neighbour_infos.seq(),
                keys == self@.keys(),
                i <= keys.len(),
                r@.len() == i,
                forall|j: int|
                    0 <= j < i ==> (#[trigger] r@[j]).inv() && r@[j]@
                        == self@.neighbours[keys[j]].sec_info,
            decreases keys.len() - i,
        {
            r.push(self.neighbour_infos.value_at(i).sec_info());
            i += 1;
        }
        assert(r@.map_values(|info: &SectionInfo| info@) =~= self@.neighbour_list());
        r
    }

    /// Returns `true` if we should merge.
    pub fn should_vote_for_merge(&self) -> (r: bool)
        requires
            self.inv(),
        ensures
            r == self@.should_merge(),
    {
        self.state.should_vote_for_merge(self.min_sec_size, &self.neighbour_infos())
    }

    /// Returns `true` if we have accumulated self `NetworkEvent::OurMerge`.
    pub fn is_self_merge_ready(&self) -> (r: bool)
        requires
            self.inv(),
        ensures
            r == self@.state.is_merge_ready(),
    {
        self.state.is_self_merge_ready()
    }

    /// Returns how many of the given nodes agree with our name for longer than our prefix.
    fn count_near(&self, members: &OrderedSet<PublicId>) -> (r: usize)
        requires
            self.inv(),
            members.inv(),
        ensures
            r == self@.near(members@).len(),
            r > 0 ==> self@.our_prefix().bits().len() < self@.our_name().bits().len(),
    {
        let ghost s = members.seq();
        let ghost m = self@;
        let our_name = self.our_id.name();
        let bit_count = self.state.our_prefix().bit_count();
        let mut n: usize = 0;
        let mut i: usize = 0;
        proof {
            members.lemma_inv();
            assert(m.near(s.take(0).to_set()) =~= Set::<PublicId>::empty());
        }
        while i < members.len()
            invariant
                self.inv(),
                members.inv(),
                s == members.seq(),
                s.no_duplicates(),
                m == self@,
                our_name == m.our_name(),
                bit_count == m.our_prefix().bits().len(),
                n <= i <= s.len(),
                m.near(s.take(i as int).to_set()).finite(),
                n == m.near(s.take(i as int).to_set()).len(),
                n > 0 ==> bit_count < our_name.bits().len(),
            decreases s.len() - i,
        {
            let id = members.at(i);
            let ghost before = m.near(s.take(i as int).to_set());
            let ghost after = m.near(s.take(i + 1).to_set());
            proof {
                take_next(s, i as int);
                let t = s.take(i as int);
                if t.contains(*id) {
                    let j = choose|j: int| 0 <= j < t.len() && t[j] == *id;
                    assert(s[j] == s[i as int]);
                }
                common_len_props(our_name.bits(), id.xor_name().bits());
            }
            if our_name.common_prefix(id.name()) > bit_count {
                assert(after =~= before.insert(*id));
                n += 1;
            } else {
                assert(after =~= before);
            }
            i += 1;
        }
        assert(s.take(i as int) =~= s);
        n
    }

    /// Returns whether a section of the given members should split into two.
    fn should_split(&self, members: &OrderedSet<PublicId>) -> (r: bool)
        requires
            self.inv(),
            members.inv(),
        ensures
            r == self@.splits(members@),
            r ==> self@.our_prefix().bits().len() < self@.our_name().bits().len(),
    {
        if self.state.change != PrefixChange::Stable || self.should_vote_for_merge() {
            return false;
        }
        let new_size = self.count_near(members) as u128;
        let min_split_size = self.min_sec_size as u128 + SPLIT_BUFFER as u128;
        // If either of the two new sections will not contain enough entries, return `false`.
        new_size >= min_split_size && members.len() as u128 >= min_split_size + new_size
    }

    /// Splits our section and returns the descriptions of the new sections, ours first.
    fn split_self(&mut self, members: OrderedSet<PublicId>) -> (r: (SectionInfo, SectionInfo))
        requires
            old(self).inv(),
            members.inv(),
            old(self)@.our_prefix().bits().len() < old(self)@.our_name().bits().len(),
            old(self)@.state.new_info.version < u64::MAX,
        ensures
            final(self).inv(),
            final(self)@ == old(self)@.with_new_info(
                old(self)@.half(members@, true),
                old(self)@.state.change,
            ),
            r.0.inv(),
            r.1.inv(),
            r.0@ == old(self)@.half(members@, true),
            r.1@ == old(self)@.half(members@, false),
    {
        let ghost start = self@;
        let next_bit = self.our_id.name().bit(self.state.our_prefix().bit_count());
        let our_prefix = self.state.our_prefix().pushed(next_bit);
        let other_prefix = self.state.our_prefix().pushed(!next_bit);
        let (our_new_section, other_section) = partition(&members, &our_prefix);
        let our_new_info = SectionInfo::new(
            our_new_section,
            our_prefix,
            Some(&self.state.new_info),
        );
        let other_info = SectionInfo::new(other_section, other_prefix, Some(&self.state.new_info));
        self.state.new_info = our_new_info.clone();
        proof {
            start.stays_well_formed(self@);
        }
        (our_new_info, other_info)
    }

    /// Adds a member to our section, creating a new `SectionInfo` in the process.
    /// If we need to split also returns an additional sibling `SectionInfo`.
    /// Should not be called while a pfx change is in progress.
    pub fn add_member(&mut self, pub_id: PublicId) -> (r: Result<Vec<SectionInfo>, RoutingError>)
        requires
            old(self).inv(),
            old(self)@.state.new_info.version < u64::MAX,
        ensures
            final(self).inv(),
            r matches Ok(infos) && {
                &&& (final(self)@, models(infos@)) == old(self)@.add_step(pub_id)
                &&& forall|i: int| 0 <= i < infos@.len() ==> (#[trigger] infos@[i]).inv()
            },
    {
        let ghost start = self@;
        let mut members = self.state.new_info.members().duplicate();
        let _ = members.insert(pub_id);

        let mut infos: Vec<SectionInfo> = Vec::new();
        if self.should_split(&members) {
            let (our_info, other_info) = self.split_self(members);
            self.state.change = PrefixChange::Splitting;
            infos.push(our_info);
            infos.push(other_info);
            proof {
                start.stays_well_formed(self@);
                assert(models(infos@) =~= start.add_step(pub_id).1);
            }
            return Ok(infos);
        }

        let prefix = *self.state.new_info.prefix();
        self.state.new_info = SectionInfo::new(members, prefix, Some(&self.state.new_info));
        infos.push(self.state.new_info.clone());
        proof {
            start.stays_well_formed(self@);
            assert(models(infos@) =~= start.add_step(pub_id).1);
        }
        Ok(infos)
    }

    /// Removes a member from our section, creating a new `our_info` in the process.
    /// Should not be called while a pfx change is in progress.
    pub fn remove_member(&mut self, pub_id: PublicId) -> (r: Result<SectionInfo, RoutingError>)
        requires
            old(self).inv(),
            old(self)@.state.new_info.version < u64::MAX,
        ensures
            final(self).inv(),
            final(self)@ == old(self)@.remove_step(pub_id),
            r matches Ok(info) && info.inv() && info@ == final(self)@.state.new_info,
    {
        let ghost start = self@;
        let mut members = self.state.new_info.members().duplicate();
        let _ = members.remove(&pub_id);

        let prefix = *self.state.new_info.prefix();
        self.state.new_info = SectionInfo::new(members, prefix, Some(&self.state.new_info));

        if self.state.new_info.members().len() < self.min_sec_size {
            // This keeps the chain from being extended any further. The vote for the merge still
            // waits until the new description is confirmed.
            self.state.change = PrefixChange::Merging;
        }
        proof {
            start.stays_well_formed(self@);
        }
        Ok(self.state.new_info.clone())
    }

    /// Returns the next section info if both we and our sibling have signalled for merging.
    pub fn try_merge(&mut self) -> (r: Result<Option<SectionInfo>, RoutingError>)
        requires
            old(self).inv(),
            old(self)@.our_info().version < u64::MAX,
            old(self)@.neighbours.dom().contains(old(self)@.our_prefix().twin())
                ==> old(self)@.neighbours[old(self)@.our_prefix().twin()].sec_info.version
                < u64::MAX,
        ensures
            final(self).inv(),
            r matches Ok(merged) && match merged {
                Some(info) => {
                    &&& old(self)@.can_merge()
                    &&& final(self)@ == old(self)@.merge_step()
                    &&& info.inv()
                    &&& info@ == final(self)@.state.new_info
                },
                None => !old(self)@.can_merge() && final(self)@ == old(self)@,
            },
    {
        let ghost start = self@;
        let sibling = self.state.our_prefix().sibling();
        let their_info = match self.neighbour_infos.get(&sibling) {
            Some(ni) => ni.sec_info(),
            None => {
                return Ok(None);
            },
        };
        let merged = self.state.try_merge(their_info);
        proof {
            start.stays_well_formed(self@);
        }
        Ok(merged)
    }

    /// Check inside the neighbour infos failing which inside the chain accumulator if we have a
    /// SectionInfo with our proof for it that can validate the given SectionInfo as its next link
    pub fn is_valid_neighbour_info(&self, sec_info: &SectionInfo, proofs: &ProofSet) -> (r: bool)
        requires
            self.inv(),
            sec_info.inv(),
            proofs.inv(),
        ensures
            r == self@.valid_neighbour(sec_info@, proofs@),
    {
        if let Some(n_info) = self.compatible_neighbour_info(sec_info) {
            if n_info.same(sec_info) || n_info.proves_successor(sec_info, proofs) {
                return true;
            }
        }
        let signed = self.signed_events();
        let mut i: usize = 0;
        while i < signed.len()
            invariant
                self.inv(),
                sec_info.inv(),
                proofs.inv(),
                i <= signed@.len(),
                forall|j: int|
                    0 <= j < signed@.len() ==> (#[trigger] signed@[j]).inv() && self@.signed(
                        signed@[j]@,
                    ),
                forall|j: int|
                    0 <= j < i ==> !(#[trigger] signed@[j])@.confirms(sec_info@, proofs@),
            decreases signed@.len() - i,
        {
            assert(signed@[i as int].inv());
            if signed[i].proves_successor_info(sec_info, proofs) {
                return true;
            }
            i += 1;
        }
        proof {
            assert forall|e: EventModel| #[trigger] self@.signed(e) implies !e.confirms(
                sec_info@,
                proofs@,
            ) by {
                let j = choose|j: int| 0 <= j < signed@.len() && (#[trigger] signed@[j])@ == e;
                assert(signed@[j]@ == e);
            }
        }
        false
    }

    /// Returns all network events that we have signed but haven't accumulated yet.
    pub(crate) fn signed_events(&self) -> (r: Vec<&NetworkEvent>)
        requires
            self.inv(),
        ensures
            forall|i: int|
                0 <= i < r@.len() ==> (#[trigger] r@[i]).inv() && self@.signed(r@[i]@),
            forall|e: EventModel| #[trigger]
                self@.signed(e) ==> exists|i: int| 0 <= i < r@.len() && (#[trigger] r@[i])@ == e,
    {
        let ghost keys = self.chain_accumulator.seq();
        proof {
            self.chain_accumulator.lemma_inv();
        }
        let mut r: Vec<&NetworkEvent> = Vec::new();
        let mut i: usize = 0;
        while i < self.chain_accumulator.len()
            invariant
                self.inv(),
                keys == self.chain_accumulator.seq(),
                i <= keys.len(),
                forall|j: int|
                    0 <= j < r@.len() ==> (#[trigger] r@[j]).inv() && self@.signed(r@[j]@),
                forall|k: int|
                    0 <= k < i && self@.signed(#[trigger] keys[k]) ==> exists|j: int|
                        0 <= j < r@.len() && (#[trigger] r@[j])@ == keys[k],
            decreases keys.len() - i,
        {
            let ghost before = r@;
            let event = self.chain_accumulator.key_at(i);
            if self.chain_accumulator.value_at(i).contains_id(&self.our_id) {
                r.push(event);
                assert(r@[before.len() as int]@ == keys[i as int]);
            }
            proof {
                assert forall|k: int| 0 <= k < i + 1 && self@.signed(#[trigger] keys[k]) implies
                    exists|j: int| 0 <= j < r@.len() && (#[trigger] r@[j])@ == keys[k] by {
                    if k < i {
                        let j = choose|j: int|
                            0 <= j < before.len() && (#[trigger] before[j])@ == keys[k];
                        assert(r@[j]@ == keys[k]);
                    }
                }
            }
            i += 1;
        }
        proof {
            assert forall|e: EventModel| #[trigger] self@.signed(e) implies exists|j: int|
                0 <= j < r@.len() && (#[trigger] r@[j])@ == e by {
                assert(keys.to_set().contains(e));
                let k = choose|k: int| 0 <= k < keys.len() && keys[k] == e;
                assert(self@.signed(keys[k]));
            }
        }
        r
    }

    /// Returns the least version of our section that any other section knows, or zero.
    fn least_known_version(&self) -> (r: u64)
        requires
            self.inv(),
        ensures
            self@.is_least_known(r),
            r == self@.least_known(),
    {
        let ghost keys = self.their_knowledge.seq();
        let ghost m = self@;
        proof {
            self.their_knowledge.lemma_inv();
        }
        let n = self.their_knowledge.len();
        let mut least: u64 = 0;
        let mut i: usize = 0;
        while i < n
            invariant
                self.inv(),
                m == self@,
                keys == self.their_knowledge.seq(),
                n == keys.len(),
                i <= n,
                keys.to_set() == m.their_knowledge.dom(),
                i == 0 ==> least == 0,
                i > 0 ==> exists|j: int|
                    0 <= j < i && m.their_knowledge[#[trigger] keys[j]] == least,
                forall|j: int| 0 <= j < i ==> least <= m.their_knowledge[#[trigger] keys[j]],
            decreases n - i,
        {
            let version = *self.their_knowledge.value_at(i);
            assert(m.their_knowledge[keys[i as int]] == version);
            if i == 0 || version < least {
                least = version;
            }
            i += 1;
        }
        proof {
            if n == 0 {
                assert(m.their_knowledge.dom() =~= Set::<Prefix>::empty());
            } else {
                let j = choose|j: int| 0 <= j < n && m.their_knowledge[#[trigger] keys[j]] == least;
                assert(keys.contains(keys[j]));
                assert(keys.to_set().contains(keys[j]));
                assert(m.their_knowledge.dom().contains(keys[j]));
                assert(m.their_knowledge.dom() != Set::<Prefix>::empty());
                assert forall|p: Prefix| #[trigger] m.their_knowledge.dom().contains(p) implies least
                    <= m.their_knowledge[p] by {
                    assert(keys.to_set().contains(p));
                    let k = choose|k: int| 0 <= k < keys.len() && keys[k] == p;
                    assert(least <= m.their_knowledge[keys[k]]);
                }
            }
            assert(m.is_least_known(least));
            let other = m.least_known();
            assert(m.is_least_known(other));
            m.least_known_unique(least, other);
        }
        least
    }

    /// Returns the events that we have to vote for again after a change of our prefix.
    fn events_to_repeat(&self) -> (r: OrderedSet<NetworkEvent>)
        requires
            self.inv(),
        ensures
            r.inv(),
            r@ == self@.events_to_repeat(),
    {
        let ghost m = self@;
        let mut r = self.event_cache.duplicate();
        let signed = self.signed_events();
        let mut i: usize = 0;
        while i < signed.len()
            invariant
                self.inv(),
                m == self@,
                r.inv(),
                i <= signed@.len(),
                forall|j: int|
                    0 <= j < signed@.len() ==> (#[trigger] signed@[j]).inv() && m.signed(
                        signed@[j]@,
                    ),
                forall|e: EventModel| #[trigger]
                    r@.contains(e) ==> m.event_cache.contains(e) || (m.signed(e)
                        && !m.completed.contains(e)),
                m.event_cache.subset_of(r@),
                forall|j: int|
                    0 <= j < i && !m.completed.contains((#[trigger] signed@[j])@) ==> r@.contains(
                        signed@[j]@,
                    ),
            decreases signed@.len() - i,
        {
            assert(signed@[i as int].inv());
            let event = signed[i];
            if !self.completed_events.contains(event) {
                let _ = r.insert(event.clone());
            }
            i += 1;
        }
        let ghost first = r@;
        proof {
            assert forall|e: EventModel| #[trigger] first.contains(e) <==> (m.event_cache.contains(e)
                || (m.signed(e) && !m.completed.contains(e))) by {
                if m.signed(e) && !m.completed.contains(e) {
                    let j = choose|j: int| 0 <= j < signed@.len() && (#[trigger] signed@[j])@ == e;
                    assert(first.contains(signed@[j]@));
                }
            }
        }
        let ghost digests = self.state.merging.seq();
        let mut k: usize = 0;
        while k < self.state.merging.len()
            invariant
                self.inv(),
                m == self@,
                r.inv(),
                digests == self.state.merging.seq(),
                k <= digests.len(),
                forall|e: EventModel| #[trigger]
                    r@.contains(e) <==> (first.contains(e) || (e matches EventModel::NeighbourMerge(
                        d,
                    ) && digests.take(k as int).contains(d))),
            decreases digests.len() - k,
        {
            let digest = *self.state.merging.at(k);
            let _ = r.insert(NetworkEvent::NeighbourMerge(digest));
            proof {
                take_next(digests, k as int);
            }
            k += 1;
        }
        proof {
            assert(digests.take(k as int) =~= digests);
            assert(r@ =~= m.events_to_repeat());
        }
        r
    }

    /// Finalises a split or merge - creates a `GenesisPfxInfo` for the new graph and returns the
    /// cached and currently accumulated events.
    pub fn finalise_prefix_change(&mut self) -> (r: Result<PrefixChangeOutcome, RoutingError>)
        requires
            old(self).inv(),
        ensures
            final(self).inv(),
            final(self)@ == old(self)@.finalise_step(),
            r matches Ok(outcome) && {
                &&& outcome.gen_pfx_info.first_info.inv()
                &&& outcome.gen_pfx_info.first_info@ == old(self)@.our_info()
                &&& outcome.gen_pfx_info.latest_info.inv()
                &&& outcome.gen_pfx_info.latest_info@ == SectionModel::next(
                    Set::empty(),
                    Prefix::of_bits(Seq::empty()),
                    None,
                )
                &&& outcome.cached_events.inv()
                &&& outcome.cached_events@ == old(self)@.events_to_repeat()
                &&& outcome.completed_events.inv()
                &&& outcome.completed_events@ == old(self)@.completed
            },
    {
        let ghost start = self@;
        let cached_events = self.events_to_repeat();

        // Forget our descriptions that are older than what any neighbour knows.
        let our_oldest_ver = self.least_known_version();
        let _ = self.state.clean_older(our_oldest_ver);

        self.check_and_clean_neighbour_infos(None);
        let ghost cleaned = self@;
        self.state.change = PrefixChange::Stable;

        let mut completed_events: OrderedSet<NetworkEvent> = OrderedSet::new();
        std::mem::swap(&mut completed_events, &mut self.completed_events);
        self.chain_accumulator = OrderedMap::new();
        self.event_cache = OrderedSet::new();
        self.state.merging = OrderedSet::new();
        proof {
            cleaned.stays_well_formed(self@);
            assert(self@ =~= start.finalise_step());
        }

        let first_info = self.state.our_info().clone();
        let latest_info = SectionInfo::default();
        Ok(
            PrefixChangeOutcome {
                gen_pfx_info: GenesisPfxInfo { first_info, latest_info },
                cached_events,
                completed_events,
            },
        )
    }
}

// What the chain knows
impl Chain {
    /// Returns our public ID
    pub fn our_id(&self) -> (r: &PublicId)
        ensures
            *r == self@.our_id,
    {
        &self.our_id
    }

    /// Returns our own current section info.
    pub fn our_info(&self) -> (r: &SectionInfo)
        requires
            self.inv(),
        ensures
            r@ == self@.our_info(),
            r.inv(),
    {
        self.state.our_info()
    }

    /// Returns our own current section's prefix.
    pub fn our_prefix(&self) -> (r: &Prefix)
        requires
            self.inv(),
        ensures
            *r == self@.our_prefix(),
            r.inv(),
    {
        self.state.our_prefix()
    }

    /// Returns whether our section is in the process of changing (splitting or merging).
    pub fn prefix_change(&self) -> (r: PrefixChange)
        ensures
            r == self@.state.change,
    {
        self.state.change
    }

    /// Returns our section info with the given hash, if it exists.
    pub fn our_info_by_hash(&self, hash: &Digest256) -> (r: Option<&SectionInfo>)
        requires
            self.inv(),
        ensures
            match r {
                Some(info) => self@.state.info_with_hash(*hash) matches Some(x) && x.0 == info@
                    && info.inv(),
                None => self@.state.info_with_hash(*hash) is None,
            },
    {
        self.state.our_info_by_hash(hash)
    }

    /// If we are a member of the section yet. We consider ourselves to be one after we receive a
    /// `SectionInfo` block that contains us. After that we are expected to be involved in further
    /// votings.
    pub fn is_member(&self) -> (r: bool)
        ensures
            r == self@.is_member,
    {
        self.is_member
    }

    /// Returns the shared state.
    pub(crate) fn shared_state(&self) -> (r: &SharedState)
        requires
            self.inv(),
        ensures
            r@ == self@.state,
            r.inv(),
    {
        &self.state
    }

    /// Returns what is known of the neighbouring sections.
    pub(crate) fn neighbours(&self) -> (r: &OrderedMap<Prefix, NeighbourSigs>)
        requires
            self.inv(),
        ensures
            r@ == self@.neighbours,
            r.inv(),
    {
        &self.neighbour_infos
    }

    /// Returns the versions of our section that other sections know.
    pub(crate) fn known_versions(&self) -> (r: &OrderedMap<Prefix, u64>)
        requires
            self.inv(),
        ensures
            r@ == self@.their_knowledge,
            r.inv(),
    {
        &self.their_knowledge
    }

    /// What holds of every chain holds of its model.
    pub proof fn lemma_inv(&self)
        requires
            self.inv(),
        ensures
            self@.valid(),
            self@.our_prefix().inv(),
    {
        self.state.new_info.inv_valid();
        assert forall|i: int| 0 <= i < self@.state.our_infos.len() implies (
        #[trigger] self@.state.our_infos[i]).0.valid() by {
            assert(self.state.our_infos@[i].0.inv());
            self.state.our_infos@[i].0.inv_valid();
        }
        self.neighbour_infos.lemma_inv();
        self.their_knowledge.lemma_inv();
        self.chain_accumulator.lemma_inv();
        assert forall|p: Prefix| #[trigger] self@.neighbours.dom().contains(p) implies p.inv()
            && self@.neighbours[p].sec_info.valid() by {
            let nsigs = self.neighbour_infos.value_of(p);
            nsigs.lemma_inv();
            let keys = self.neighbour_infos.seq();
            assert(keys.to_set().contains(p));
            let i = choose|i: int| 0 <= i < keys.len() && keys[i] == p;
            assert(Prefix::valid(keys[i]));
        }
    }

    /// Return prefixes of all our neighbours
    pub fn other_prefixes(&self) -> (r: OrderedSet<Prefix>)
        requires
            self.inv(),
        ensures
            r.inv(),
            r@ == self@.neighbours.dom(),
    {
        self.neighbour_infos.keys()
    }

    /// Collects prefixes of all sections known by the routing table.
    pub fn prefixes(&self) -> (r: OrderedSet<Prefix>)
        requires
            self.inv(),
        ensures
            r.inv(),
            r@ == self@.neighbours.dom().insert(self@.our_prefix()),
    {
        let mut r = self.other_prefixes();
        let _ = r.insert(*self.our_prefix());
        r
    }

    /// Inserts the `version` of our own section into `their_knowledge` for `pfx`.
    pub fn update_their_knowledge(&mut self, pfx: Prefix, version: u64)
        requires
            old(self).inv(),
            pfx.inv(),
        ensures
            final(self).inv(),
            final(self)@ == (ChainModel {
                their_knowledge: old(self)@.their_knowledge.insert(pfx, version),
                ..old(self)@
            }),
    {
        let _ = self.their_knowledge.insert(pfx, version);
        proof {
            old(self)@.stays_well_formed(self@);
        }
    }

    /// Checks if given `PublicId` is a valid peer by checking if we have them as a member of self
    /// section or neighbours.
    pub fn is_peer_valid(&self, pub_id: &PublicId) -> (r: bool)
        requires
            self.inv(),
        ensures
            r == self@.knows_peer(*pub_id),
    {
        let ghost keys = self.neighbour_infos.seq();
        proof {
            self.neighbour_infos.lemma_inv();
        }
        let mut i: usize = 0;
        while i < self.neighbour_infos.len()
            invariant
                self.inv(),
                keys == self.neighbour_infos.seq(),
                i <= keys.len(),
                forall|j: int|
                    0 <= j < i ==> !self@.neighbours[#[trigger] keys[j]].sec_info.members.contains(
                        *pub_id,
                    ),
            decreases keys.len() - i,
        {
            if self.neighbour_infos.value_at(i).sec_info().members().contains(pub_id) {
                assert(self@.neighbours.dom().contains(keys[i as int]));
                return true;
            }
            i += 1;
        }
        proof {
            assert forall|p: Prefix| #[trigger] self@.neighbours.dom().contains(p) implies
                !self@.neighbours[p].sec_info.members.contains(*pub_id) by {
                assert(keys.to_set().contains(p));
                let j = choose|j: int| 0 <= j < keys.len() && keys[j] == p;
                assert(!self@.neighbours[keys[j]].sec_info.members.contains(*pub_id));
            }
        }
        self.our_info().members().contains(pub_id) || self.state.new_info.members().contains(pub_id)
    }

    /// Returns a set of valid peers we should be connected to.
    pub fn valid_peers(&self) -> (r: OrderedSet<PublicId>)
        requires
            self.inv(),
        ensures
            r.inv(),
            r@ == Set::new(|id: PublicId| self@.knows_peer(id)),
    {
        let ghost keys = self.neighbour_infos.seq();
        proof {
            self.neighbour_infos.lemma_inv();
        }
        let mut r = self.our_info().members().duplicate();
        insert_all(&mut r, self.state.new_info.members());
        let ghost own = r@;
        let mut i: usize = 0;
        while i < self.neighbour_infos.len()
            invariant
                self.inv(),
                r.inv(),
                keys == self.neighbour_infos.seq(),
                i <= keys.len(),
                own.subset_of(r@),
                forall|id: PublicId| #[trigger]
                    r@.contains(id) ==> own.contains(id) || self@.in_neighbour(id),
                forall|j: int|
                    0 <= j < i ==> self@.neighbours[#[trigger] keys[j]].sec_info.members.subset_of(
                        r@,
                    ),
            decreases keys.len() - i,
        {
            let members = self.neighbour_infos.value_at(i).sec_info().members();
            let ghost before = r@;
            insert_all(&mut r, members);
            proof {
                assert forall|id: PublicId| #[trigger] r@.contains(id) implies own.contains(id)
                    || self@.in_neighbour(id) by {
                    if !before.contains(id) {
                        assert(self@.neighbours.dom().contains(keys[i as int]));
                    }
                }
            }
            i += 1;
        }
        proof {
            assert forall|id: PublicId| self@.in_neighbour(id) implies r@.contains(id) by {
                let p = choose|p: Prefix| #[trigger]
                    self@.neighbours.dom().contains(p)
                        && self@.neighbours[p].sec_info.members.contains(id);
                assert(keys.to_set().contains(p));
                let j = choose|j: int| 0 <= j < keys.len() && keys[j] == p;
                assert(self@.neighbours[keys[j]].sec_info.members.subset_of(r@));
            }
            assert(r@ =~= Set::new(|id: PublicId| self@.knows_peer(id)));
        }
        r
    }

    /// Returns the members of the section with the given prefix (if it exists)
    pub fn get_section(&self, pfx: &Prefix) -> (r: Option<&SectionInfo>)
        requires
            self.inv(),
            pfx.inv(),
        ensures
            match r {
                Some(info) => {
                    &&& *pfx == self@.our_prefix() || self@.neighbours.dom().contains(*pfx)
                    &&& info@ == self@.section(*pfx)
                    &&& info.inv()
                },
                None => *pfx != self@.our_prefix() && !self@.neighbours.dom().contains(*pfx),
            },
    {
        if self.our_prefix().is(pfx) {
            Some(self.our_info())
        } else {
            match self.neighbour_infos.get(pfx) {
                Some(nsigs) => Some(nsigs.sec_info()),
                None => None,
            }
        }
    }

    /// Returns the node that is about to join our section.
    pub(crate) fn candidate(&self) -> (r: &Candidate)
        ensures
            *r == self@.candidate,
    {
        &self.candidate
    }

    /// Return true if already has a candidate
    pub fn has_resource_proof_candidate(&self) -> (r: bool)
        ensures
            r == !(self@.candidate is Nobody),
    {
        !self.candidate.is_none()
    }

    /// Forget about the current candidate.
    pub fn reset_candidate(&mut self)
        ensures
            old(self).inv() ==> final(self).inv(),
            final(self)@ == (ChainModel { candidate: Candidate::Nobody, ..old(self)@ }),
    {
        self.candidate.reset();
        proof {
            if old(self).inv() {
                old(self)@.stays_well_formed(self@);
            }
        }
    }

    /// Forget about the current candidate if it is a member of the given section.
    pub fn reset_candidate_if_member_of(&mut self, members: &OrderedSet<PublicId>)
        requires
            members.inv(),
        ensures
            old(self).inv() ==> final(self).inv(),
            final(self)@ == (ChainModel {
                candidate: old(self)@.candidate.without_member(members@),
                ..old(self)@
            }),
    {
        self.candidate.reset_if_member_of(members);
        proof {
            if old(self).inv() {
                old(self)@.stays_well_formed(self@);
            }
        }
    }

    /// Return true if we are waiting for candidate info for that PublicId.
    pub fn matching_candidate_target_interval(&self, old_pub_id: &PublicId) -> (r: Option<
        &XorTargetInterval,
    >)
        ensures
            match r {
                Some(interval) => self@.candidate == (Candidate::AcceptedForResourceProof {
                    old_pub_id: *old_pub_id,
                    target_interval: *interval,
                }),
                None => self@.candidate.tested_id() != Some(*old_pub_id),
            },
    {
        self.candidate.matching_target_interval(old_pub_id)
    }

    /// Our section decided that the candidate should be selected next.
    pub fn accept_as_candidate(&mut self, old_pub_id: PublicId, target_interval: XorTargetInterval)
        requires
            old(self)@.candidate is Nobody,
        ensures
            old(self).inv() ==> final(self).inv(),
            final(self)@ == (ChainModel {
                candidate: Candidate::AcceptedForResourceProof { old_pub_id, target_interval },
                ..old(self)@
            }),
    {
        self.candidate.accept_for_resource_proof(old_pub_id, target_interval);
        proof {
            if old(self).inv() {
                old(self)@.stays_well_formed(self@);
            }
        }
    }

    /// Handle consensus on `Online`. Marks the candidate as `ApprovedWaitingSectionInfo`.
    /// If the candidate was already purged or is unexpected, return false.
    pub fn try_accept_candidate_as_member(&mut self, online_payload: &OnlinePayload) -> (r: bool)
        ensures
            old(self).inv() ==> final(self).inv(),
            r == (old(self)@.candidate.tested_id() == Some(online_payload.old_public_id)),
            final(self)@ == (if r {
                ChainModel {
                    candidate: Candidate::ApprovedWaitingSectionInfo {
                        new_pub_id: online_payload.new_public_id,
                    },
                    ..old(self)@
                }
            } else {
                old(self)@
            }),
    {
        let r = self.candidate.try_accept_as_member(online_payload);
        proof {
            if old(self).inv() {
                old(self)@.stays_well_formed(self@);
            }
        }
        r
    }

    /// The public id of the candidate we are waiting to approve.
    pub fn candidate_old_public_id(&self) -> (r: Option<&PublicId>)
        ensures
            match r {
                Some(id) => self@.candidate.tested_id() == Some(*id),
                None => self@.candidate.tested_id() is None,
            },
    {
        self.candidate.old_public_id()
    }
}

/// Adds all keys of the one set to the other.
fn insert_all(set: &mut OrderedSet<PublicId>, more: &OrderedSet<PublicId>)
    requires
        old(set).inv(),
        more.inv(),
    ensures
        final(set).inv(),
        final(set)@ == old(set)@.union(more@),
{
    let ghost start = set@;
    let ghost s = more.seq();
    let mut i: usize = 0;
    assert(set@ =~= start.union(s.take(0).to_set()));
    while i < more.len()
        invariant
            set.inv(),
            more.inv(),
            s == more.seq(),
            i <= s.len(),
            set@ == start.union(s.take(i as int).to_set()),
        decreases s.len() - i,
    {
        let _ = set.insert(*more.at(i));
        proof {
            take_next(s, i as int);
            assert(set@ =~= start.union(s.take(i + 1).to_set()));
        }
        i += 1;
    }
    assert(s.take(i as int) =~= s);
}

} // verus!
