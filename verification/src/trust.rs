//! Which sections a chain trusts, and how it vouches for them.

use crate::chain::Chain;
use crate::chain_model::ChainModel;
use crate::codes::models;
use crate::error::RoutingError;
use crate::message::SignedRoutingMessage;
use crate::network_event::EventModel;
use crate::order::Checked;
use crate::ordered::sorted;
use crate::prefix::Prefix;
use crate::section_info::{ProvingModel, ProvingSection, SectionInfo};
use crate::seqs::{find_first_at, find_first_none};
use crate::xor_name::{common_len, XorName};
use vstd::prelude::*;

verus! {

/// Returns whether `known` is `info` or its direct successor.
fn is_proof(known: &SectionInfo, info: &SectionInfo) -> (r: bool)
    requires
        known.inv(),
        info.inv(),
    ensures
        r == ChainModel::vouches(known@, info@),
{
    known.same(info) || known.is_successor_of(info)
}

/// Returns whether `known` is at least as new as `info`, and its prefix is compatible.
fn is_newer(known: &SectionInfo, info: &SectionInfo) -> (r: bool)
    requires
        known.inv(),
        info.inv(),
    ensures
        r == ChainModel::outdates(known@, info@),
{
    known.version() >= info.version() && info.prefix().is_compatible(known.prefix())
}

impl Chain {
    /// Returns whether a section that we have signed vouches for `info`.
    fn signed_vouches(&self, info: &SectionInfo) -> (r: bool)
        requires
            self.inv(),
            info.inv(),
        ensures
            r == self@.signed_vouches(info@),
    {
        let signed = self.signed_events();
        let mut i: usize = 0;
        while i < signed.len()
            invariant
                self.inv(),
                info.inv(),
                i <= signed@.len(),
                forall|j: int|
                    0 <= j < signed@.len() ==> (#[trigger] signed@[j]).inv() && self@.signed(
                        signed@[j]@,
                    ),
                forall|j: int|
                    0 <= j < i ==> !((#[trigger] signed@[j])@ matches EventModel::SectionInfo(known)
                        && ChainModel::vouches(known, info@)),
            decreases signed@.len() - i,
        {
            assert(signed@[i as int].inv());
            if let Some(known) = signed[i].section_info() {
                if is_proof(known, info) {
                    assert(self@.signed(EventModel::SectionInfo(known@)));
                    return true;
                }
            }
            i += 1;
        }
        proof {
            if self@.signed_vouches(info@) {
                let known = choose|known|
                    #[trigger] self@.signed(EventModel::SectionInfo(known)) && ChainModel::vouches(
                        known,
                        info@,
                    );
                let e = EventModel::SectionInfo(known);
                assert(self@.signed(e));
                let j = choose|j: int| 0 <= j < signed@.len() && (#[trigger] signed@[j])@ == e;
                assert(signed@[j]@ == e);
            }
        }
        false
    }

    /// Returns whether we have signed a section that outdates `info`.
    fn signed_outdates(&self, info: &SectionInfo) -> (r: bool)
        requires
            self.inv(),
            info.inv(),
        ensures
            r == self@.signed_outdates(info@),
    {
        let signed = self.signed_events();
        let mut i: usize = 0;
        while i < signed.len()
            invariant
                self.inv(),
                info.inv(),
                i <= signed@.len(),
                forall|j: int|
                    0 <= j < signed@.len() ==> (#[trigger] signed@[j]).inv() && self@.signed(
                        signed@[j]@,
                    ),
                forall|j: int|
                    0 <= j < i ==> !((#[trigger] signed@[j])@ matches EventModel::SectionInfo(known)
                        && ChainModel::outdates(known, info@)),
            decreases signed@.len() - i,
        {
            assert(signed@[i as int].inv());
            if let Some(known) = signed[i].section_info() {
                if is_newer(known, info) {
                    assert(self@.signed(EventModel::SectionInfo(known@)));
                    return true;
                }
            }
            i += 1;
        }
        proof {
            if self@.signed_outdates(info@) {
                let known = choose|known|
                    #[trigger] self@.signed(EventModel::SectionInfo(known)) && ChainModel::outdates(
                        known,
                        info@,
                    );
                let e = EventModel::SectionInfo(known);
                assert(self@.signed(e));
                let j = choose|j: int| 0 <= j < signed@.len() && (#[trigger] signed@[j])@ == e;
                assert(signed@[j]@ == e);
            }
        }
        false
    }

    /// Returns `true` if we know the section `sec_info`.
    ///
    /// If `check_signed` is `true`, also trust sections that we have signed but that haven't
    /// accumulated yet.
    pub fn is_trusted(&self, sec_info: &SectionInfo, check_signed: bool) -> (r: bool)
        requires
            self.inv(),
            sec_info.inv(),
        ensures
            r == self@.trusts(sec_info@, check_signed),
    {
        if check_signed && self.signed_vouches(sec_info) {
            return true;
        }
        if sec_info.prefix().matches(self.our_id().name()) {
            let state = self.shared_state();
            let mut i: usize = 0;
            while i < state.our_infos.len()
                invariant
                    self.inv(),
                    sec_info.inv(),
                    sec_info@.prefix.covers(self@.our_name()),
                    state.inv(),
                    state@ == self@.state,
                    i <= state.our_infos@.len(),
                    forall|j: int|
                        0 <= j < i ==> !ChainModel::vouches(
                            (#[trigger] self@.state.our_infos[j]).0,
                            sec_info@,
                        ),
                decreases state.our_infos@.len() - i,
            {
                assert(state.our_infos@[i as int].0.inv());
                assert(self@.state.our_infos[i as int].0 == state.our_infos@[i as int].0@);
                if is_proof(&state.our_infos[i].0, sec_info) {
                    return true;
                }
                i += 1;
            }
            false
        } else {
            self.neighbour_vouches(sec_info)
        }
    }

    /// Returns whether one of the neighbouring sections vouches for `info`.
    fn neighbour_vouches(&self, info: &SectionInfo) -> (r: bool)
        requires
            self.inv(),
            info.inv(),
        ensures
            r == self@.neighbour_vouches(info@),
    {
        let neighbours = self.neighbours();
        let ghost keys = neighbours.seq();
        proof {
            neighbours.lemma_inv();
        }
        let mut i: usize = 0;
        while i < neighbours.len()
            invariant
                self.inv(),
                info.inv(),
                neighbours.inv(),
                neighbours@ == self@.neighbours,
                keys == neighbours.seq(),
                i <= keys.len(),
                forall|j: int|
                    0 <= j < i ==> !ChainModel::vouches(
                        self@.neighbours[#[trigger] keys[j]].sec_info,
                        info@,
                    ),
            decreases keys.len() - i,
        {
            if is_proof(neighbours.value_at(i).sec_info(), info) {
                assert(self@.neighbours.dom().contains(keys[i as int]));
                return true;
            }
            i += 1;
        }
        proof {
            assert forall|p: Prefix| #[trigger] self@.neighbours.dom().contains(p) implies
                !ChainModel::vouches(self@.neighbours[p].sec_info, info@) by {
                assert(keys.to_set().contains(p));
                let j = choose|j: int| 0 <= j < keys.len() && keys[j] == p;
                assert(!ChainModel::vouches(self@.neighbours[keys[j]].sec_info, info@));
            }
        }
        false
    }

    /// Returns `true` if the `SectionInfo` isn't known to us yet.
    pub fn is_new(&self, sec_info: &SectionInfo) -> (r: bool)
        requires
            self.inv(),
            sec_info.inv(),
        ensures
            r == self@.finds_new(sec_info@),
    {
        if self.signed_outdates(sec_info) {
            return false;
        }
        if sec_info.prefix().matches(self.our_id().name()) {
            let state = self.shared_state();
            let mut i: usize = 0;
            while i < state.our_infos.len()
                invariant
                    self.inv(),
                    sec_info.inv(),
                    sec_info@.prefix.covers(self@.our_name()),
                    state.inv(),
                    state@ == self@.state,
                    i <= state.our_infos@.len(),
                    forall|j: int|
                        0 <= j < i ==> !ChainModel::outdates(
                            (#[trigger] self@.state.our_infos[j]).0,
                            sec_info@,
                        ),
                decreases state.our_infos@.len() - i,
            {
                assert(state.our_infos@[i as int].0.inv());
                assert(self@.state.our_infos[i as int].0 == state.our_infos@[i as int].0@);
                if is_newer(&state.our_infos[i].0, sec_info) {
                    return false;
                }
                i += 1;
            }
            true
        } else {
            !self.neighbour_outdates(sec_info)
        }
    }

    /// Returns whether one of the neighbouring sections outdates `info`.
    fn neighbour_outdates(&self, info: &SectionInfo) -> (r: bool)
        requires
            self.inv(),
            info.inv(),
        ensures
            r == exists|p: Prefix| #[trigger]
                self@.neighbours.dom().contains(p) && ChainModel::outdates(
                    self@.neighbours[p].sec_info,
                    info@,
                ),
    {
        let neighbours = self.neighbours();
        let ghost keys = neighbours.seq();
        proof {
            neighbours.lemma_inv();
        }
        let mut i: usize = 0;
        while i < neighbours.len()
            invariant
                self.inv(),
                info.inv(),
                neighbours.inv(),
                neighbours@ == self@.neighbours,
                keys == neighbours.seq(),
                i <= keys.len(),
                forall|j: int|
                    0 <= j < i ==> !ChainModel::outdates(
                        self@.neighbours[#[trigger] keys[j]].sec_info,
                        info@,
                    ),
            decreases keys.len() - i,
        {
            if is_newer(neighbours.value_at(i).sec_info(), info) {
                assert(self@.neighbours.dom().contains(keys[i as int]));
                return true;
            }
            i += 1;
        }
        proof {
            assert forall|p: Prefix| #[trigger] self@.neighbours.dom().contains(p) implies
                !ChainModel::outdates(self@.neighbours[p].sec_info, info@) by {
                assert(keys.to_set().contains(p));
                let j = choose|j: int| 0 <= j < keys.len() && keys[j] == p;
                assert(!ChainModel::outdates(self@.neighbours[keys[j]].sec_info, info@));
            }
        }
        false
    }

    /// Returns `true` if the `SectionInfo` isn't known to us yet and is a neighbouring section.
    pub fn is_new_neighbour(&self, sec_info: &SectionInfo) -> (r: bool)
        requires
            self.inv(),
            sec_info.inv(),
        ensures
            r == (self@.our_prefix().adjoins(sec_info@.prefix) && self@.finds_new(sec_info@)),
    {
        self.our_prefix().is_neighbour(sec_info.prefix()) && self.is_new(sec_info)
    }

    /// Returns the position of the first neighbouring section that vouches for `info`.
    fn vouching_position(&self, info: &SectionInfo) -> (r: Option<usize>)
        requires
            self.inv(),
            info.inv(),
        ensures
            match r {
                Some(i) => i < self@.keys().len() && self@.vouching_neighbour(info@) == Some(
                    self@.keys()[i as int],
                ),
                None => self@.vouching_neighbour(info@) is None,
            },
    {
        let neighbours = self.neighbours();
        let ghost keys = neighbours.seq();
        let ghost m = self@;
        let ghost si = info@;
        let ghost f = |p: Prefix| ChainModel::vouches(m.neighbours[p].sec_info, si);
        proof {
            neighbours.lemma_inv();
        }
        let mut i: usize = 0;
        while i < neighbours.len()
            invariant
                self.inv(),
                info.inv(),
                m == self@,
                si == info@,
                neighbours.inv(),
                neighbours@ == m.neighbours,
                keys == neighbours.seq(),
                keys == m.keys(),
                i <= keys.len(),
                f == (|p: Prefix| ChainModel::vouches(m.neighbours[p].sec_info, si)),
                forall|j: int| 0 <= j < i ==> !f(keys[j]),
            decreases keys.len() - i,
        {
            if is_proof(neighbours.value_at(i).sec_info(), info) {
                proof {
                    find_first_at(keys, f, i as int);
                }
                return Some(i);
            }
            i += 1;
        }
        proof {
            find_first_none(keys, f);
        }
        None
    }

    /// Returns the sections that lead from `info` to our own.
    fn way_home(&self, info: &SectionInfo) -> (r: Result<Vec<ProvingSection>, RoutingError>)
        requires
            self.inv(),
            info.inv(),
        ensures
            match r {
                Ok(sections) => {
                    &&& self@.way_home(info@) == Ok::<_, RoutingError>(models(sections@))
                    &&& forall|i: int| 0 <= i < sections@.len() ==> (#[trigger] sections@[i]).inv()
                },
                Err(e) => self@.way_home(info@) == Err::<Seq<ProvingModel>, _>(e),
            },
    {
        let mut result: Vec<ProvingSection> = Vec::new();
        if info.prefix().matches(self.our_id().name()) {
            assert(models(result@) =~= Seq::<ProvingModel>::empty());
            return Ok(result);
        }
        // The neighbour that is the hop or its successor.
        let pos = match self.vouching_position(info) {
            Some(pos) => pos,
            None => {
                return Err(RoutingError::UnknownPrevHop);
            },
        };
        let neighbours = self.neighbours();
        proof {
            neighbours.lemma_inv();
        }
        let ns = neighbours.value_at(pos);
        let follows = ns.sec_info().is_successor_of(info);
        if follows {
            result.push(ProvingSection::successor(ns.sec_info()));
        }
        // Our own proof of that neighbour.
        let our_info = match self.shared_state().our_info_by_version(ns.our_version()) {
            Some(our_info) => our_info,
            None => {
                return Err(RoutingError::InvalidStateForOperation);
            },
        };
        result.push(ProvingSection::signatures(our_info, ns.proofs()));
        proof {
            let signer = ProvingModel { sec_info: our_info@, sigs: Some(ns@.proofs) };
            if follows {
                assert(models(result@) =~= seq![
                    ProvingModel { sec_info: ns@.sec_info, sigs: None },
                    signer,
                ]);
            } else {
                assert(models(result@) =~= seq![signer]);
            }
        }
        Ok(result)
    }

    /// Returns the version of our section that the next hop towards `dst` knows.
    fn next_hop_version(&self, dst: &XorName) -> (r: u64)
        requires
            self.inv(),
        ensures
            r == self@.next_hop_version(*dst),
    {
        let known = self.known_versions();
        let ghost keys = known.seq();
        let ghost m = self@;
        let ghost d = *dst;
        let ghost f = |p: Prefix|
            common_len(p.bits(), d.bits()) > common_len(m.our_prefix().bits(), d.bits());
        proof {
            known.lemma_inv();
        }
        let ours = self.our_prefix().common_prefix(dst);
        let mut i: usize = 0;
        while i < known.len()
            invariant
                self.inv(),
                m == self@,
                d == *dst,
                known.inv(),
                known@ == m.their_knowledge,
                keys == known.seq(),
                keys == sorted::<Prefix>(m.their_knowledge.dom()),
                ours == common_len(m.our_prefix().bits(), d.bits()),
                i <= keys.len(),
                f == (|p: Prefix|
                    common_len(p.bits(), d.bits()) > common_len(m.our_prefix().bits(), d.bits())),
                forall|j: int| 0 <= j < i ==> !f(keys[j]),
            decreases keys.len() - i,
        {
            if known.key_at(i).common_prefix(dst) > ours {
                proof {
                    find_first_at(keys, f, i as int);
                }
                return *known.value_at(i);
            }
            i += 1;
        }
        proof {
            find_first_none(keys, f);
        }
        let state = self.shared_state();
        assert(m.state.our_infos[0].0 == state.our_infos@[0].0@);
        state.our_infos[0].0.version()
    }

    /// Returns a chain of proving sections leading back to `sec_info`.
    pub fn get_proving_sections(&self, sec_info: &SectionInfo, dst_name: XorName) -> (r: Result<
        Vec<ProvingSection>,
        RoutingError,
    >)
        requires
            self.inv(),
            sec_info.inv(),
        ensures
            match r {
                Ok(sections) => {
                    &&& self@.proving_sections(sec_info@, dst_name) == Ok::<_, RoutingError>(
                        models(sections@),
                    )
                    &&& forall|i: int| 0 <= i < sections@.len() ==> (#[trigger] sections@[i]).inv()
                },
                Err(e) => self@.proving_sections(sec_info@, dst_name) == Err::<
                    Seq<ProvingModel>,
                    _,
                >(e),
            },
    {
        let mut result = match self.way_home(sec_info) {
            Ok(result) => result,
            Err(e) => {
                return Err(e);
            },
        };
        let ghost head = models(result@);

        // If the destination is our own section, insert links up to the latest version. Otherwise,
        // insert links up to the version known by the next hop.
        let n = result.len();
        let from_ver = if n > 0 {
            result[n - 1].sec_info.version()
        } else {
            sec_info.version()
        };
        let our_ver = self.our_info().version();
        let state = self.shared_state();
        if self.our_prefix().matches(&dst_name) {
            append_sections(&mut result, state.proving_sections_to_own(from_ver, our_ver));
        } else {
            let to_ver = self.next_hop_version(&dst_name);
            append_sections(&mut result, state.proving_sections_to_own(from_ver, to_ver));
            append_sections(&mut result, state.proving_sections_to_own(to_ver, our_ver));
            proof {
                let a = self@.state.links(from_ver, to_ver);
                let b = self@.state.links(to_ver, our_ver);
                assert((head + a) + b =~= head + (a + b));
            }
        }
        Ok(result)
    }

    /// Appends a list of `ProvingSection`s that authenticates the message, if possible. The last
    /// section will then belong to the next hop.
    pub fn extend_proving_sections(&self, msg: &mut SignedRoutingMessage) -> (r: Result<
        (),
        RoutingError,
    >)
        requires
            self.inv(),
            old(msg).inv(),
        ensures
            final(msg).inv(),
            (final(msg)@, r) == self@.extend_step(old(msg)@),
    {
        let dst_name = msg.routing_message().dst.name();
        if !self.drop_untrusted(msg) {
            // We don't know any proving section.
            return Err(RoutingError::UnknownPrevHop);
        }

        // If the previous hop is a neighbour, insert the proof from our own section.
        let proving_sections = match msg.previous_hop() {
            Some(prev_hop) => match self.get_proving_sections(prev_hop, dst_name) {
                Ok(sections) => sections,
                Err(e) => {
                    return Err(e);
                },
            },
            None => {
                // No sending section.
                return Ok(());
            },
        };
        msg.extend_proving_sections(proving_sections);
        Ok(())
    }

    /// Removes the proving sections behind the last one that we trust. Returns whether there is
    /// nothing left that we do not trust.
    fn drop_untrusted(&self, msg: &mut SignedRoutingMessage) -> (r: bool)
        requires
            self.inv(),
            old(msg).inv(),
        ensures
            final(msg).inv(),
            (final(msg)@, r) == self@.trusted_part(old(msg)@),
            final(msg)@.dst == old(msg)@.dst,
    {
        let ghost start = msg@;
        loop
            invariant
                self.inv(),
                msg.inv(),
                start == old(msg)@,
                msg@.dst == start.dst,
                self@.trusted_part(msg@) == self@.trusted_part(start),
            decreases msg@.proving_sections.len(),
        {
            match msg.previous_hop() {
                None => {
                    return true;
                },
                Some(hop) => {
                    if self.is_trusted(hop, false) {
                        return true;
                    }
                },
            }
            // We don't know the last hop! Try the one before that.
            if !msg.pop_previous_hop() {
                return false;
            }
        }
    }
}

/// Appends proving sections.
fn append_sections(result: &mut Vec<ProvingSection>, mut more: Vec<ProvingSection>)
    requires
        forall|i: int| 0 <= i < old(result)@.len() ==> (#[trigger] old(result)@[i]).inv(),
        forall|i: int| 0 <= i < more@.len() ==> (#[trigger] more@[i]).inv(),
    ensures
        models(final(result)@) == models(old(result)@) + models(more@),
        forall|i: int| 0 <= i < final(result)@.len() ==> (#[trigger] final(result)@[i]).inv(),
{
    let ghost before = result@;
    let ghost added = more@;
    result.append(&mut more);
    proof {
        assert(models(result@) =~= models(before) + models(added));
        assert forall|i: int| 0 <= i < result@.len() implies (#[trigger] result@[i]).inv() by {
            if i < before.len() {
                assert(result@[i] == before[i]);
            } else {
                assert(result@[i] == added[i - before.len()]);
            }
        }
    }
}

} // verus!
