//! The part of the state that all members of our section agree on.

use crate::codes::models;
use crate::order::Checked;
use crate::ordered::OrderedSet;
use crate::prefix::Prefix;
use crate::proof_set::{ProofMap, ProofSet};
use crate::section_info::{ProvingModel, ProvingSection, SectionInfo, SectionModel};
use crate::seqs::{find_first, find_first_at, find_first_none};
use crate::sha3::Digest256;
use vstd::prelude::*;

verus! {

/// A change of our section's prefix that is under way.
#[derive(Clone, Copy, Debug, PartialEq, Eq, Structural)]
pub enum PrefixChange {
    /// There is none.
    Stable,
    /// Our section is splitting.
    Splitting,
    /// Our section is merging with its sibling.
    Merging,
}

/// The part of the state that all members of our section agree on.
#[derive(Debug, PartialEq, Eq)]
pub struct SharedState {
    /// The latest description of our section, which its members may not have confirmed yet.
    pub new_info: SectionInfo,
    /// The confirmed descriptions of our section, the latest one at the end, each with the
    /// signatures by the one before it.
    pub our_infos: Vec<(SectionInfo, ProofSet)>,
    /// The change of our section's prefix that is under way.
    pub change: PrefixChange,
    /// The digests of the sections that are ready to merge.
    pub merging: OrderedSet<Digest256>,
    /// The half of our splitting section that was confirmed first.
    pub split_cache: Option<(SectionInfo, ProofSet)>,
}

/// A confirmed description of a section with its signatures.
pub type Confirmed = (SectionModel, ProofMap);

/// What the shared state says.
#[verifier::ext_equal]
pub struct StateModel {
    /// The latest description of our section.
    pub new_info: SectionModel,
    /// The confirmed descriptions of our section, the latest one at the end.
    pub our_infos: Seq<Confirmed>,
    /// The change of our section's prefix that is under way.
    pub change: PrefixChange,
    /// The digests of the sections that are ready to merge.
    pub merging: Set<Digest256>,
    /// The half of our splitting section that was confirmed first.
    pub split_cache: Option<Confirmed>,
}

/// The models of confirmed descriptions.
pub open spec fn history(s: Seq<(SectionInfo, ProofSet)>) -> Seq<Confirmed> {
    s.map_values(|x: (SectionInfo, ProofSet)| (x.0@, x.1@))
}

/// The descriptions newer than `from` and not newer than `to`, each as the successor of the one
/// before it.
pub open spec fn newer_links(infos: Seq<Confirmed>, from: u64, to: u64) -> Seq<ProvingModel>
    decreases infos.len(),
{
    if infos.len() == 0 {
        Seq::empty()
    } else {
        let rest = newer_links(infos.drop_last(), from, to);
        let info = infos.last().0;
        if from < info.version <= to {
            rest.push(ProvingModel { sec_info: info, sigs: None })
        } else {
            rest
        }
    }
}

/// The descriptions older than `from` and not older than `to`, the latest one first, each with the
/// signatures that it gave the one after it.
pub open spec fn older_links(infos: Seq<Confirmed>, from: u64, to: u64) -> Seq<ProvingModel>
    decreases infos.len(),
{
    if infos.len() < 2 {
        Seq::empty()
    } else {
        let signer = infos[infos.len() - 2].0;
        let signed = infos.last();
        let rest = older_links(infos.drop_last(), from, to);
        if to <= signer.version && signed.0.version <= from {
            seq![ProvingModel { sec_info: signer, sigs: Some(signed.1) }] + rest
        } else {
            rest
        }
    }
}

impl StateModel {
    /// The latest confirmed description of our section.
    pub open spec fn our_info(self) -> SectionModel {
        self.our_infos.last().0
    }

    /// Our section's prefix.
    pub open spec fn our_prefix(self) -> Prefix {
        self.our_info().prefix
    }

    /// The first of our confirmed descriptions with the given digest.
    pub open spec fn info_with_hash(self, hash: Digest256) -> Option<Confirmed> {
        find_first(self.our_infos, |x: Confirmed| x.0.hash == hash)
    }

    /// The first of our confirmed descriptions with the given version.
    pub open spec fn info_with_version(self, version: u64) -> Option<Confirmed> {
        find_first(self.our_infos, |x: Confirmed| x.0.version == version)
    }

    /// Our section has agreed to merge, as it is confirmed or as it is about to become.
    pub open spec fn is_merge_ready(self) -> bool {
        self.merging.contains(self.our_info().hash) || self.merging.contains(self.new_info.hash)
    }

    /// Our section and `their_info` are both ready to merge.
    pub open spec fn can_merge(self, their_info: SectionModel) -> bool {
        self.merging.contains(self.our_info().hash) && self.merging.contains(their_info.hash)
    }

    /// The state after our section and `their_info` have merged.
    pub open spec fn with_merged(self, their_info: SectionModel) -> StateModel {
        StateModel {
            new_info: self.our_info().merged(their_info),
            merging: self.merging.remove(self.our_info().hash).remove(their_info.hash),
            ..self
        }
    }

    /// `info` is the section that ours or a part of ours would merge with, and it is too small or
    /// ready to merge.
    pub open spec fn merge_partner(self, min_size: usize, info: SectionModel) -> bool {
        &&& self.our_prefix().compatible(info.prefix.twin())
        &&& info.members.len() < min_size || self.merging.contains(info.hash)
    }

    /// Our section should merge: it is too small, or a section that it can merge with needs it.
    pub open spec fn needs_merge(self, min_size: usize, neighbours: Set<SectionModel>) -> bool {
        &&& self.our_prefix().bits().len() > 0
        &&& self.change != PrefixChange::Splitting
        &&& self.our_info().members.len() < min_size || exists|info: SectionModel|
            #![trigger neighbours.contains(info)]
            neighbours.contains(info) && self.merge_partner(min_size, info)
    }

    /// The sections that lead from the version `from` of our section to the version `to`.
    pub open spec fn links(self, from: u64, to: u64) -> Seq<ProvingModel> {
        if from <= to {
            newer_links(self.our_infos, from, to)
        } else {
            older_links(self.our_infos, from, to)
        }
    }

    /// The confirmed descriptions from the first one with the given version on, or all of them if
    /// there is none.
    pub open spec fn infos_from(self, version: u64) -> Seq<Confirmed> {
        infos_from(self.our_infos, version)
    }
}

/// The descriptions from the first one with the given version on, or all of them if there is none.
pub open spec fn infos_from(infos: Seq<Confirmed>, version: u64) -> Seq<Confirmed> {
    if exists|i: int| 0 <= i < infos.len() && (#[trigger] infos[i]).0.version == version {
        tail_from(infos, version)
    } else {
        infos
    }
}

/// What remains when everything before the first description with the given version is dropped.
pub open spec fn tail_from(infos: Seq<Confirmed>, version: u64) -> Seq<Confirmed>
    decreases infos.len(),
{
    if infos.len() == 0 || infos[0].0.version == version {
        infos
    } else {
        tail_from(infos.drop_first(), version)
    }
}

/// Where a description with the given version stands behind no other one with it, it is the first
/// of those that remain.
pub proof fn tail_from_at(infos: Seq<Confirmed>, version: u64, i: int)
    requires
        0 <= i < infos.len(),
        infos[i].0.version == version,
        forall|j: int| 0 <= j < i ==> (#[trigger] infos[j]).0.version != version,
    ensures
        tail_from(infos, version) == infos.skip(i),
    decreases i,
{
    if i == 0 {
        assert(infos.skip(0) =~= infos);
    } else {
        let t = infos.drop_first();
        assert(infos[0].0.version != version);
        assert forall|j: int| 0 <= j < i - 1 implies (#[trigger] t[j]).0.version != version by {
            assert(t[j] == infos[j + 1]);
        }
        assert(t[i - 1] == infos[i]);
        tail_from_at(t, version, i - 1);
        assert(t.skip(i - 1) =~= infos.skip(i));
    }
}

/// The latest description always remains.
pub proof fn infos_from_keeps_last(infos: Seq<Confirmed>, version: u64)
    requires
        infos.len() > 0,
    ensures
        infos_from(infos, version).len() > 0,
        infos_from(infos, version).last() == infos.last(),
    decreases infos.len(),
{
    if infos[0].0.version != version && infos.len() > 1 && (exists|i: int|
        0 <= i < infos.len() && (#[trigger] infos[i]).0.version == version) {
        let i = choose|i: int| 0 <= i < infos.len() && (#[trigger] infos[i]).0.version == version;
        let rest = infos.drop_first();
        assert(rest[i - 1] == infos[i]);
        infos_from_keeps_last(rest, version);
    }
}

/// What remains was there before.
pub proof fn infos_from_part(infos: Seq<Confirmed>, version: u64, i: int)
    requires
        0 <= i < infos_from(infos, version).len(),
    ensures
        infos.contains(infos_from(infos, version)[i]),
    decreases infos.len(),
{
    if exists|k: int| 0 <= k < infos.len() && (#[trigger] infos[k]).0.version == version {
        if infos[0].0.version != version {
            let k = choose|k: int| 0 <= k < infos.len() && (#[trigger] infos[k]).0.version == version;
            let rest = infos.drop_first();
            assert(rest[k - 1] == infos[k]);
            infos_from_part(rest, version, i);
            let x = infos_from(rest, version)[i];
            let j = choose|j: int| 0 <= j < rest.len() && rest[j] == x;
            assert(infos[j + 1] == x);
        }
    }
}

impl View for SharedState {
    type V = StateModel;

    open spec fn view(&self) -> StateModel {
        StateModel {
            new_info: self.new_info@,
            our_infos: history(self.our_infos@),
            change: self.change,
            merging: self.merging@,
            split_cache: match self.split_cache {
                Some(x) => Some((x.0@, x.1@)),
                None => None,
            },
        }
    }
}

impl SharedState {
    /// All parts are valid, and our section has a confirmed description.
    pub open spec fn inv(&self) -> bool {
        &&& self.new_info.inv()
        &&& self.our_infos@.len() > 0
        &&& forall|i: int|
            0 <= i < self.our_infos@.len() ==> (#[trigger] self.our_infos@[i]).0.inv()
                && self.our_infos@[i].1.inv()
        &&& self.merging.inv()
        &&& self.split_cache matches Some(x) ==> x.0.inv() && x.1.inv()
    }

    /// Returns the state of a section that was just founded.
    pub fn new(section_info: SectionInfo) -> (r: SharedState)
        requires
            section_info.inv(),
        ensures
            r.inv(),
            r@ == (StateModel {
                new_info: section_info@,
                our_infos: seq![(section_info@, ProofMap::empty())],
                change: PrefixChange::Stable,
                merging: Set::empty(),
                split_cache: None,
            }),
    {
        let mut our_infos: Vec<(SectionInfo, ProofSet)> = Vec::new();
        our_infos.push((section_info.clone(), ProofSet::new()));
        let r = SharedState {
            new_info: section_info,
            our_infos,
            change: PrefixChange::Stable,
            merging: OrderedSet::new(),
            split_cache: None,
        };
        assert(r@.our_infos =~= seq![(section_info@, ProofMap::empty())]);
        r
    }

    /// Returns the latest confirmed description of our section.
    pub fn our_info(&self) -> (r: &SectionInfo)
        requires
            self.inv(),
        ensures
            r@ == self@.our_info(),
            r.inv(),
    {
        assert(self.our_infos@[self.our_infos@.len() - 1].0.inv());
        &self.our_infos[self.our_infos.len() - 1].0
    }

    /// Returns our section's prefix.
    pub fn our_prefix(&self) -> (r: &Prefix)
        requires
            self.inv(),
        ensures
            *r == self@.our_prefix(),
            r.inv(),
    {
        self.our_info().prefix()
    }

    /// Returns the version of the latest confirmed description of our section.
    pub fn our_version(&self) -> (r: u64)
        requires
            self.inv(),
        ensures
            r == self@.our_info().version,
    {
        self.our_info().version()
    }

    /// Returns the first of our confirmed descriptions with the given digest.
    pub fn our_info_by_hash(&self, hash: &Digest256) -> (r: Option<&SectionInfo>)
        requires
            self.inv(),
        ensures
            match r {
                Some(info) => self@.info_with_hash(*hash) matches Some(x) && x.0 == info@
                    && info.inv(),
                None => self@.info_with_hash(*hash) is None,
            },
    {
        let ghost p = |x: Confirmed| x.0.hash == *hash;
        let mut i: usize = 0;
        while i < self.our_infos.len()
            invariant
                self.inv(),
                i <= self.our_infos@.len(),
                p == (|x: Confirmed| x.0.hash == *hash),
                forall|j: int| 0 <= j < i ==> !p(self@.our_infos[j]),
            decreases self.our_infos@.len() - i,
        {
            assert(self.our_infos@[i as int].0.inv());
            assert(self@.our_infos[i as int].0 == self.our_infos@[i as int].0@);
            if self.our_infos[i].0.hash().is(hash) {
                proof {
                    find_first_at(self@.our_infos, p, i as int);
                }
                return Some(&self.our_infos[i].0);
            }
            i += 1;
        }
        proof {
            find_first_none(self@.our_infos, p);
        }
        None
    }

    /// Returns the first of our confirmed descriptions with the given version.
    pub fn our_info_by_version(&self, version: u64) -> (r: Option<&SectionInfo>)
        requires
            self.inv(),
        ensures
            match r {
                Some(info) => self@.info_with_version(version) matches Some(x) && x.0 == info@
                    && info.inv(),
                None => self@.info_with_version(version) is None,
            },
    {
        let ghost p = |x: Confirmed| x.0.version == version;
        let mut i: usize = 0;
        while i < self.our_infos.len()
            invariant
                self.inv(),
                i <= self.our_infos@.len(),
                p == (|x: Confirmed| x.0.version == version),
                forall|j: int| 0 <= j < i ==> !p(self@.our_infos[j]),
            decreases self.our_infos@.len() - i,
        {
            assert(self.our_infos@[i as int].0.inv());
            assert(self@.our_infos[i as int].0 == self.our_infos@[i as int].0@);
            if self.our_infos[i].0.version() == version {
                proof {
                    find_first_at(self@.our_infos, p, i as int);
                }
                return Some(&self.our_infos[i].0);
            }
            i += 1;
        }
        proof {
            find_first_none(self@.our_infos, p);
        }
        None
    }

    /// Returns whether our section has agreed to merge.
    pub fn is_self_merge_ready(&self) -> (r: bool)
        requires
            self.inv(),
        ensures
            r == self@.is_merge_ready(),
    {
        self.merging.contains(self.our_info().hash()) || self.merging.contains(self.new_info.hash())
    }

    /// Merges our section with `their_info` if both are ready.
    pub fn try_merge(&mut self, their_info: &SectionInfo) -> (r: Option<SectionInfo>)
        requires
            old(self).inv(),
            their_info.inv(),
            old(self)@.our_info().version < u64::MAX,
            their_info@.version < u64::MAX,
        ensures
            final(self).inv(),
            match r {
                Some(info) => {
                    &&& old(self)@.can_merge(their_info@)
                    &&& final(self)@ == old(self)@.with_merged(their_info@)
                    &&& info@ == final(self)@.new_info
                    &&& info.inv()
                },
                None => !old(self)@.can_merge(their_info@) && final(self)@ == old(self)@,
            },
    {
        let our_hash = *self.our_info().hash();
        let their_hash = *their_info.hash();
        if !self.merging.contains(&our_hash) || !self.merging.contains(&their_hash) {
            return None;
        }
        let merged = self.our_info().merge(their_info);
        let _ = self.merging.remove(&our_hash);
        let _ = self.merging.remove(&their_hash);
        self.new_info = merged.clone();
        Some(merged)
    }

    /// Returns whether our section should merge, where `neighbours` are the sections around it.
    pub fn should_vote_for_merge(&self, min_size: usize, neighbours: &Vec<&SectionInfo>) -> (r:
        bool)
        requires
            self.inv(),
            forall|i: int| 0 <= i < neighbours@.len() ==> (#[trigger] neighbours@[i]).inv(),
        ensures
            r == self@.needs_merge(
                min_size,
                neighbours@.map_values(|info: &SectionInfo| info@).to_set(),
            ),
    {
        let ghost all = neighbours@.map_values(|info: &SectionInfo| info@);
        if self.our_prefix().is_empty() || self.change == PrefixChange::Splitting {
            return false;
        }
        if self.our_info().members().len() < min_size {
            return true;
        }
        let mut i: usize = 0;
        while i < neighbours.len()
            invariant
                self.inv(),
                forall|j: int| 0 <= j < neighbours@.len() ==> (#[trigger] neighbours@[j]).inv(),
                i <= neighbours@.len(),
                all == neighbours@.map_values(|info: &SectionInfo| info@),
                self@.our_prefix().bits().len() > 0,
                self@.change != PrefixChange::Splitting,
                self@.our_info().members.len() >= min_size,
                forall|j: int| 0 <= j < i ==> !self@.merge_partner(min_size, #[trigger] all[j]),
            decreases neighbours@.len() - i,
        {
            let info = neighbours[i];
            assert(neighbours@[i as int].inv());
            if self.our_prefix().is_compatible(&info.prefix().sibling()) && (info.members().len()
                < min_size || self.merging.contains(info.hash())) {
                proof {
                    assert(self@.merge_partner(min_size, info@));
                    assert(all[i as int] == info@);
                    assert(all.to_set().contains(info@));
                }
                return true;
            }
            assert(!self@.merge_partner(min_size, all[i as int]));
            i += 1;
        }
        false
    }

    /// Returns the sections that lead from the version `from` of our section to the version `to`.
    pub fn proving_sections_to_own(&self, from: u64, to: u64) -> (r: Vec<ProvingSection>)
        requires
            self.inv(),
        ensures
            models(r@) == self@.links(from, to),
            forall|i: int| 0 <= i < r@.len() ==> (#[trigger] r@[i]).inv(),
    {
        let ghost infos = self@.our_infos;
        let mut r: Vec<ProvingSection> = Vec::new();
        if from <= to {
            let mut i: usize = 0;
            assert(models(r@) =~= newer_links(infos.take(0), from, to));
            while i < self.our_infos.len()
                invariant
                    self.inv(),
                    infos == self@.our_infos,
                    i <= infos.len(),
                    models(r@) == newer_links(infos.take(i as int), from, to),
                    forall|j: int| 0 <= j < r@.len() ==> (#[trigger] r@[j]).inv(),
                decreases infos.len() - i,
            {
                let info = &self.our_infos[i].0;
                let ghost before = r@;
                assert(self.our_infos@[i as int].0.inv());
                assert(infos.take(i + 1).drop_last() =~= infos.take(i as int));
                if from < info.version() && info.version() <= to {
                    r.push(ProvingSection::successor(info));
                    assert(models(r@) =~= models(before).push(
                        ProvingModel { sec_info: info@, sigs: None },
                    ));
                }
                i += 1;
            }
            assert(infos.take(i as int) =~= infos);
        } else {
            let mut i: usize = self.our_infos.len();
            assert(infos.take(i as int) =~= infos);
            assert(models(r@) + older_links(infos, from, to) =~= older_links(
                infos,
                from,
                to,
            ));
            while i > 1
                invariant
                    self.inv(),
                    infos == self@.our_infos,
                    1 <= i <= infos.len(),
                    models(r@) + older_links(infos.take(i as int), from, to)
                        == older_links(infos, from, to),
                    forall|j: int| 0 <= j < r@.len() ==> (#[trigger] r@[j]).inv(),
                decreases i,
            {
                let signer = &self.our_infos[i - 2].0;
                let signed = &self.our_infos[i - 1];
                let ghost before = r@;
                assert(self.our_infos@[i - 2].0.inv());
                assert(self.our_infos@[i - 1].0.inv());
                assert(infos.take(i as int).drop_last() =~= infos.take(i - 1));
                if to <= signer.version() && signed.0.version() <= from {
                    r.push(ProvingSection::signatures(signer, &signed.1));
                    let ghost link = ProvingModel { sec_info: signer@, sigs: Some(signed.1@) };
                    proof {
                        let rest = older_links(infos.take(i - 1), from, to);
                        assert(models(r@) =~= models(before).push(link));
                        assert(models(r@) + rest =~= models(before) + (
                        seq![link] + rest));
                    }
                }
                i -= 1;
            }
            assert(models(r@) =~= older_links(infos, from, to));
        }
        r
    }

    /// Drops the confirmed descriptions before the first one with the given version. Returns
    /// whether there is one.
    pub fn clean_older(&mut self, version: u64) -> (r: bool)
        requires
            old(self).inv(),
        ensures
            final(self).inv(),
            final(self)@ == (StateModel {
                our_infos: old(self)@.infos_from(version),
                ..old(self)@
            }),
            r == exists|i: int|
                0 <= i < old(self)@.our_infos.len() && (
                #[trigger] old(self)@.our_infos[i]).0.version == version,
            final(self)@.our_info() == old(self)@.our_info(),
    {
        let ghost infos = self@.our_infos;
        let n = self.our_infos.len();
        let mut i: usize = 0;
        while i < n && self.our_infos[i].0.version() != version
            invariant
                self.inv(),
                n == self.our_infos@.len(),
                infos == self@.our_infos,
                i <= n,
                forall|j: int| 0 <= j < i ==> (#[trigger] infos[j]).0.version != version,
            decreases n - i,
        {
            assert(infos[i as int].0 == self.our_infos@[i as int].0@);
            i += 1;
        }
        if i == n {
            return false;
        }
        assert(infos[i as int].0 == self.our_infos@[i as int].0@);
        let ghost all = self.our_infos@;
        let rest = self.our_infos.split_off(i);
        self.our_infos = rest;
        proof {
            tail_from_at(infos, version, i as int);
            assert(self@.our_infos =~= infos.skip(i as int));
            assert(self@.our_infos.last() == infos.last());
            assert forall|j: int| 0 <= j < self.our_infos@.len() implies (
            #[trigger] self.our_infos@[j]).0.inv() && self.our_infos@[j].1.inv() by {
                assert(self.our_infos@[j] == all[i + j]);
            }
        }
        true
    }
}

} // verus!
