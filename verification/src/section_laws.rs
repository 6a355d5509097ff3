//! What holds of our own section as it grows, shrinks, splits and merges.

use crate::chain_model::{updated_by, ChainModel, SPLIT_BUFFER};
use crate::error::RoutingError;
use crate::event_laws::{
    due_event_is_waiting, known_version, majority, newer_section_is_handled,
};
use crate::id::{ed25519_valid, PublicId};
use crate::neighbour_laws::{
    added_neighbour_is_known, adjoining_do_not_overlap, compatible_symmetric, family_bits,
    overlaps_parent, separate, split_neighbour_keeps_other_half,
};
use crate::network_event::{EventModel, NetworkEvent};
use crate::order::{key_less, lex_asymmetric, Checked, Coded};
use crate::ordered::{sorted, sorted_props};
use crate::prefix::{begins, differ_only_at, Prefix};
use crate::proof_set::{Proof, ProofMap};
use crate::section_info::{NeighbourModel, SectionModel, SECTION_INFO_TAG};
use crate::seqs::{
    find_first, find_first_least, find_first_props, find_last, find_last_at, find_last_position,
    find_last_props,
};
use crate::sha3::Digest256;
use crate::shared_state::{
    infos_from, infos_from_keeps_last, tail_from_at, Confirmed, PrefixChange, StateModel,
};
use crate::xor_name::{common_len, common_len_props, XorName};
use vstd::prelude::*;

verus! {

/// The children of a prefix are those that are meant.
pub proof fn child_bits(p: Prefix, bit: bool)
    requires
        p.inv(),
        p.bits().len() < 256,
    ensures
        p.child(bit).inv(),
        p.child(bit).bits() == p.bits().push(bit),
        p.child(bit).parent() == p,
        p.child(bit).twin() == p.child(!bit),
{
    let c = p.child(bit);
    Prefix::of_bits_exists(p.bits().push(bit));
    Prefix::of_bits_exists(p.bits().push(!bit));
    assert(c.parent_bits() =~= p.bits());
    p.of_bits_unique();
    assert(c.sibling_bits() =~= p.bits().push(!bit));
}

/// A name begins with the half of a prefix that another name begins with, if and only if both names
/// agree for longer than the prefix.
proof fn same_half(p: Prefix, ours: XorName, name: XorName)
    requires
        p.inv(),
        p.bits().len() < 256,
        p.covers(ours),
    ensures
        p.child(ours.bits()[p.bits().len() as int]).covers(name) <==> common_len(
            ours.bits(),
            name.bits(),
        ) > p.bits().len(),
{
    let n = p.bits().len() as int;
    let bit = ours.bits()[n];
    child_bits(p, bit);
    let c = p.child(bit).bits();
    common_len_props(ours.bits(), name.bits());
    let k = common_len(ours.bits(), name.bits());
    assert forall|i: int| 0 <= i <= n implies c[i] == ours.bits()[i] by {
        if i < n {
            assert(p.bits()[i] == ours.bits()[i]);
        }
    }
    if k > n {
        assert forall|i: int| 0 <= i < c.len() implies c[i] == name.bits()[i] by {
            assert(ours.bits()[i] == name.bits()[i]);
        }
    } else {
        assert(ours.bits()[k as int] != name.bits()[k as int]);
        assert(c[k as int] != name.bits()[k as int]);
    }
}

/// The sizes of the two parts of a set add up.
proof fn parts_add_up(s: Set<PublicId>, p: Prefix)
    requires
        s.finite(),
    ensures
        s.filter(|id: PublicId| p.covers(id.xor_name())).len() + s.filter(
            |id: PublicId| !p.covers(id.xor_name()),
        ).len() == s.len(),
    decreases s.len(),
{
    let f = |id: PublicId| p.covers(id.xor_name());
    let g = |id: PublicId| !p.covers(id.xor_name());
    if s.len() == 0 {
        s.lemma_len0_is_empty();
        assert(s.filter(f) =~= Set::empty());
        assert(s.filter(g) =~= Set::empty());
    } else {
        let id = s.choose();
        let rest = s.remove(id);
        parts_add_up(rest, p);
        rest.lemma_len_filter(f);
        rest.lemma_len_filter(g);
        if f(id) {
            assert(s.filter(f) =~= rest.filter(f).insert(id));
            assert(s.filter(g) =~= rest.filter(g));
        } else {
            assert(s.filter(f) =~= rest.filter(f));
            assert(s.filter(g) =~= rest.filter(g).insert(id));
        }
    }
}

/// The members of a valid section are finitely many.
proof fn members_finite(info: SectionModel)
    requires
        info.valid(),
    ensures
        info.members.finite(),
{
    let q = sorted::<PublicId>(info.members);
    assert(q.to_set() == info.members);
}

/// Only a prefix that is shorter than a name can be split.
proof fn split_prefix_is_short(m: ChainModel, members: Set<PublicId>)
    requires
        m.splits(members),
        members.finite(),
    ensures
        m.our_prefix().bits().len() < 256,
{
    let near = m.near(members);
    let f = |id: PublicId|
        common_len(m.our_name().bits(), id.xor_name().bits())
            > m.our_prefix().bits().len();
    assert(near == members.filter(f));
    assert(near.len() > 0);
    if near == Set::<PublicId>::empty() {
        assert(near.len() == 0);
    }
    let id = choose|id: PublicId| near.contains(id);
    assert(near.contains(id)) by {
        if forall|x: PublicId| !near.contains(x) {
            assert(near =~= Set::<PublicId>::empty());
        }
    }
    common_len_props(m.our_name().bits(), id.xor_name().bits());
}

/// When our section splits, every member goes to exactly one of the halves, the halves are siblings
/// and directly follow the section that has split, and ours is the first one.
pub proof fn split_divides_section(m: ChainModel, id: PublicId)
    requires
        m.valid(),
        m.our_prefix().covers(m.our_name()),
        m.splits(m.state.new_info.members.insert(id)),
    ensures
        m.add_step(id).1.len() == 2,
        m.add_step(id).1[0].members.union(m.add_step(id).1[1].members)
            == m.state.new_info.members.insert(id),
        m.add_step(id).1[0].members.disjoint(m.add_step(id).1[1].members),
        forall|x: PublicId| #[trigger]
            m.add_step(id).1[0].members.contains(x) ==> m.add_step(id).1[0].prefix.covers(
                x.xor_name(),
            ),
        forall|x: PublicId| #[trigger]
            m.add_step(id).1[1].members.contains(x) && m.our_prefix().covers(x.xor_name())
                ==> m.add_step(id).1[1].prefix.covers(x.xor_name()),
        m.add_step(id).1[0].prefix.covers(m.our_name()),
        m.add_step(id).1[0].prefix.parent() == m.our_prefix(),
        m.add_step(id).1[0].prefix.twin() == m.add_step(id).1[1].prefix,
        m.add_step(id).1[0].follows(m.state.new_info),
        m.add_step(id).1[1].follows(m.state.new_info),
        m.add_step(id).0.state.new_info == m.add_step(id).1[0],
        m.add_step(id).0.state.change == PrefixChange::Splitting,
{
    let members = m.state.new_info.members.insert(id);
    members_finite(m.state.new_info);
    split_prefix_is_short(m, members);
    let p = m.our_prefix();
    assert(m.state.our_infos[m.state.our_infos.len() - 1].0.valid());
    assert(p.inv());
    let n = p.bits().len() as int;
    let bit = m.next_bit();
    child_bits(p, bit);
    child_bits(p, !bit);
    let a = m.half(members, true);
    let b = m.half(members, false);
    assert(a.members.union(b.members) =~= members);
    let c = p.child(bit);
    assert forall|i: int| 0 <= i < c.bits().len() implies c.bits()[i] == m.our_name().bits()[i] by {
        if i < n {
            assert(p.bits()[i] == m.our_name().bits()[i]);
        }
    }
    let d = p.child(!bit);
    assert forall|x: PublicId| #[trigger] b.members.contains(x) && p.covers(x.xor_name()) implies
        d.covers(x.xor_name()) by {
        let name = x.xor_name().bits();
        if name[n] == bit {
            assert forall|i: int| 0 <= i < c.bits().len() implies c.bits()[i] == name[i] by {
                if i < n {
                    assert(p.bits()[i] == name[i]);
                }
            }
            assert(c.covers(x.xor_name()));
        }
        assert forall|i: int| 0 <= i < d.bits().len() implies d.bits()[i] == name[i] by {
            if i < n {
                assert(p.bits()[i] == name[i]);
            }
        }
    }
}

/// When our section splits, both halves are large enough to lose a member without having to merge.
pub proof fn split_halves_are_large(m: ChainModel, id: PublicId)
    requires
        m.valid(),
        m.our_prefix().covers(m.our_name()),
        m.splits(m.state.new_info.members.insert(id)),
    ensures
        m.add_step(id).1[0].members.len() >= m.min_sec_size + SPLIT_BUFFER,
        m.add_step(id).1[1].members.len() >= m.min_sec_size + SPLIT_BUFFER,
        forall|x: PublicId|
            m.add_step(id).0.remove_step(x).state.change == PrefixChange::Splitting,
{
    let members = m.state.new_info.members.insert(id);
    members_finite(m.state.new_info);
    split_prefix_is_short(m, members);
    let p = m.our_prefix();
    assert(m.state.our_infos[m.state.our_infos.len() - 1].0.valid());
    assert(p.inv());
    let c = p.child(m.next_bit());
    let a = m.half(members, true);
    assert(a.members =~= m.near(members)) by {
        assert forall|x: PublicId| members.contains(x) implies a.members.contains(x) == m.near(
            members,
        ).contains(x) by {
            same_half(p, m.our_name(), x.xor_name());
        }
    }
    parts_add_up(members, c);
    members.lemma_len_filter(|x: PublicId| c.covers(x.xor_name()));
    let next = m.add_step(id).0;
    assert forall|x: PublicId| next.remove_step(x).state.change == PrefixChange::Splitting by {
        assert(next.state.new_info.members.remove(x).len() >= m.min_sec_size);
    }
}

/// Merging the halves of a section gives back its members and its prefix.
pub proof fn merge_undoes_split(m: ChainModel, id: PublicId)
    requires
        m.valid(),
        m.splits(m.state.new_info.members.insert(id)),
    ensures
        m.add_step(id).1[0].merged(m.add_step(id).1[1]).members == m.state.new_info.members.insert(
            id,
        ),
        m.add_step(id).1[0].merged(m.add_step(id).1[1]).prefix == m.our_prefix(),
        m.add_step(id).1[0].merged(m.add_step(id).1[1]).follows(m.add_step(id).1[0]),
        m.add_step(id).1[0].merged(m.add_step(id).1[1]).follows(m.add_step(id).1[1]),
{
    let members = m.state.new_info.members.insert(id);
    members_finite(m.state.new_info);
    split_prefix_is_short(m, members);
    let p = m.our_prefix();
    assert(m.state.our_infos[m.state.our_infos.len() - 1].0.valid());
    child_bits(p, m.next_bit());
    let a = m.half(members, true);
    let b = m.half(members, false);
    assert(a.members.union(b.members) =~= members);
}

/// Our section merges only with its sibling, once both are ready, and only once. The merged section
/// has the members of both and directly follows both.
pub proof fn merge_joins_siblings(m: ChainModel)
    requires
        m.can_merge(),
    ensures
        m.state.merging.contains(m.our_info().hash),
        m.neighbours.dom().contains(m.our_prefix().twin()),
        m.state.merging.contains(m.neighbours[m.our_prefix().twin()].sec_info.hash),
        m.merge_step().state.new_info.members == m.our_info().members.union(
            m.neighbours[m.our_prefix().twin()].sec_info.members,
        ),
        m.merge_step().state.new_info.prefix == m.our_prefix().parent(),
        m.merge_step().state.new_info.follows(m.our_info()),
        m.merge_step().state.new_info.follows(m.neighbours[m.our_prefix().twin()].sec_info),
        !m.merge_step().can_merge(),
{
}

/// A new member makes for a section with that member that directly follows the one before it, unless
/// the section splits.
pub proof fn adding_extends_section(m: ChainModel, id: PublicId)
    requires
        m.state.new_info.version < u64::MAX,
        !m.splits(m.state.new_info.members.insert(id)),
    ensures
        m.add_step(id).1 == seq![m.add_step(id).0.state.new_info],
        m.add_step(id).0.state.new_info.members == m.state.new_info.members.insert(id),
        m.add_step(id).0.state.new_info.prefix == m.state.new_info.prefix,
        m.add_step(id).0.state.new_info.version == m.state.new_info.version + 1,
        m.add_step(id).0.state.new_info.follows(m.state.new_info),
        m.add_step(id).0.state.change == m.state.change,
{
}

/// Removing a member that was just added gives back the members, in a section that follows the one
/// with the member and has the same prefix. Where our section was neither splitting nor merging and
/// had members enough, it is neither splitting nor merging afterwards.
pub proof fn removing_undoes_adding(m: ChainModel, id: PublicId)
    requires
        !m.state.new_info.members.contains(id),
        !m.splits(m.state.new_info.members.insert(id)),
    ensures
        ({
            let added = m.add_step(id);
            let removed = added.0.remove_step(id);
            &&& added.1 == seq![added.0.state.new_info]
            &&& removed.state.new_info.members == m.state.new_info.members
            &&& removed.state.new_info.prefix == added.0.state.new_info.prefix
            &&& removed.state.new_info.prefix == m.state.new_info.prefix
            &&& removed.state.new_info.follows(added.0.state.new_info)
            &&& m.state.new_info.members.len() >= m.min_sec_size ==> removed.state.change
                == m.state.change
            &&& m.state.change == PrefixChange::Stable && m.state.new_info.members.len()
                >= m.min_sec_size ==> removed.state.change == PrefixChange::Stable
        }),
{
    assert(m.state.new_info.members.insert(id).remove(id) =~= m.state.new_info.members);
}

/// Our section starts to merge when it loses a member and has become too small.
pub proof fn removing_starts_merge(m: ChainModel, id: PublicId)
    requires
        m.state.new_info.version < u64::MAX,
    ensures
        m.remove_step(id).state.new_info.members == m.state.new_info.members.remove(id),
        m.remove_step(id).state.new_info.version == m.state.new_info.version + 1,
        m.remove_step(id).state.new_info.follows(m.state.new_info),
        m.state.new_info.members.remove(id).len() < m.min_sec_size ==> m.remove_step(
            id,
        ).state.change == PrefixChange::Merging,
        m.state.new_info.members.remove(id).len() >= m.min_sec_size ==> m.remove_step(
            id,
        ).state.change == m.state.change,
{
}

/// Once our section has agreed to merge, it is ready, even if its newest description is not confirmed
/// yet, and keeps its description.
pub proof fn agreed_merge_is_ready(m: ChainModel, proofs: ProofMap)
    ensures
        m.effect(EventModel::OurMerge, proofs).0.state.is_merge_ready(),
        m.effect(EventModel::OurMerge, proofs).0.state.change == PrefixChange::Merging,
        m.effect(EventModel::OurMerge, proofs).0.state.new_info == m.state.new_info,
        m.effect(EventModel::OurMerge, proofs).1 == Ok::<Option<EventModel>, RoutingError>(
            Some(EventModel::OurMerge),
        ),
{
}

/// Each description directly follows the one before it and was signed by a quorum of it.
pub open spec fn unbroken(infos: Seq<Confirmed>) -> bool {
    forall|i: int|
        0 < i < infos.len() ==> infos[i].0.follows((#[trigger] infos[i - 1]).0)
            && infos[i - 1].0.quorum(infos[i].1)
}

/// The versions of the descriptions rise.
pub open spec fn rising(infos: Seq<Confirmed>) -> bool {
    forall|i: int, j: int|
        0 <= i < j < infos.len() ==> (#[trigger] infos[i]).0.version < (
        #[trigger] infos[j]).0.version
}

/// `next` is a newer description of our own section that directly follows ours and was signed by a
/// quorum of it.
pub open spec fn is_next(m: ChainModel, next: Confirmed) -> bool {
    &&& next.0.follows(m.our_info())
    &&& m.our_info().quorum(next.1)
    &&& m.our_info().version < next.0.version
}

/// Our name is in our section, the confirmed descriptions of our section form a rising and unbroken
/// sequence, and so they do with the half of our splitting section that was confirmed first, if that
/// is ours.
pub open spec fn own_history(m: ChainModel) -> bool {
    &&& m.our_prefix().covers(m.our_name())
    &&& unbroken(m.state.our_infos)
    &&& rising(m.state.our_infos)
    &&& m.state.split_cache matches Some(c) ==> (c.0.prefix.covers(m.our_name()) ==> is_next(m, c))
}

/// While our half of our splitting section waits for the other half, `info` is not another
/// description of our own section.
pub open spec fn cache_fits(m: ChainModel, info: SectionModel) -> bool {
    m.state.split_cache matches Some(c) ==> (c.0.prefix.covers(m.our_name())
        ==> !info.prefix.covers(m.our_name()))
}

/// Two prefixes of the same name overlap.
proof fn prefixes_of_name_overlap(p: Prefix, q: Prefix, name: XorName)
    requires
        p.covers(name),
        q.covers(name),
    ensures
        p.compatible(q),
{
    if p.bits().len() <= q.bits().len() {
        assert forall|i: int| 0 <= i < p.bits().len() implies p.bits()[i] == q.bits()[i] by {
            assert(p.bits()[i] == name.bits()[i] && q.bits()[i] == name.bits()[i]);
        }
    } else {
        assert forall|i: int| 0 <= i < q.bits().len() implies q.bits()[i] == p.bits()[i] by {
            assert(p.bits()[i] == name.bits()[i] && q.bits()[i] == name.bits()[i]);
        }
    }
}

/// A description that follows the last one keeps the sequence rising and unbroken.
pub proof fn history_push(infos: Seq<Confirmed>, next: Confirmed)
    requires
        infos.len() > 0,
        unbroken(infos),
        rising(infos),
        next.0.follows(infos.last().0),
        infos.last().0.quorum(next.1),
        infos.last().0.version < next.0.version,
    ensures
        unbroken(infos.push(next)),
        rising(infos.push(next)),
{
    let s = infos.push(next);
    assert forall|i: int| 0 < i < s.len() implies s[i].0.follows((#[trigger] s[i - 1]).0)
        && s[i - 1].0.quorum(s[i].1) by {
        if i < infos.len() {
            assert(infos[i - 1] == s[i - 1]);
        }
    }
    assert forall|i: int, j: int| 0 <= i < j < s.len() implies (#[trigger] s[i]).0.version < (
    #[trigger] s[j]).0.version by {
        if j < infos.len() {
            assert(infos[i].0.version < infos[j].0.version);
        } else if i < infos.len() - 1 {
            assert(infos[i].0.version < infos[infos.len() - 1].0.version);
        }
    }
}

/// A description of our own section that can take effect is the next one.
pub proof fn valid_own_section_is_next(m: ChainModel, info: SectionModel, proofs: ProofMap)
    requires
        m.our_prefix().covers(m.our_name()),
        info.prefix.covers(m.our_name()),
        m.valid_section(info, proofs),
    ensures
        is_next(m, (info, proofs)),
{
    prefixes_of_name_overlap(info.prefix, m.our_prefix(), m.our_name());
}

/// The history of a section that was just founded is in order if our name is in it.
pub proof fn founded_history(min_sec_size: usize, our_id: PublicId, first: SectionModel)
    requires
        first.prefix.covers(our_id.xor_name()),
    ensures
        own_history(ChainModel::founded(min_sec_size, our_id, first)),
{
}

/// The descriptions of our own section form a rising and unbroken sequence: whatever takes effect,
/// each one directly follows the one before it, and a quorum of that one has signed it.
pub proof fn own_sections_stay_unbroken(m: ChainModel)
    requires
        m.valid(),
        own_history(m),
        m.due() matches Some(EventModel::SectionInfo(info)) ==> cache_fits(m, info),
    ensures
        own_history(m.poll_step().0),
{
    due_event_is_waiting(m);
    match m.due() {
        Some(EventModel::SectionInfo(info)) => {
            let e = EventModel::SectionInfo(info);
            let proofs = m.accumulator[e];
            assert(m.valid_section(info, proofs));
            let infos = m.state.our_infos;
            if info.prefix.covers(m.our_name()) {
                valid_own_section_is_next(m, info, proofs);
                history_push(infos, (info, proofs));
            }
            if let Some(c) = m.state.split_cache {
                if c.0.prefix.covers(m.our_name()) {
                    history_push(infos, c);
                }
            }
        },
        _ => {},
    }
}

/// Forgetting old descriptions keeps the sequence rising and unbroken.
proof fn forgetting_keeps_history(infos: Seq<Confirmed>, version: u64)
    requires
        unbroken(infos),
        rising(infos),
    ensures
        unbroken(infos_from(infos, version)),
        rising(infos_from(infos, version)),
    decreases infos.len(),
{
    if infos.len() > 0 && infos[0].0.version != version {
        let rest = infos.drop_first();
        assert forall|i: int| 0 < i < rest.len() implies rest[i].0.follows((#[trigger] rest[i - 1]).0)
            && rest[i - 1].0.quorum(rest[i].1) by {
            let j = i + 1;
            assert(infos[j - 1] == rest[i - 1]);
        }
        assert forall|i: int, j: int| 0 <= i < j < rest.len() implies (
        #[trigger] rest[i]).0.version < (#[trigger] rest[j]).0.version by {
            let (k, l) = (i + 1, j + 1);
            assert(infos[k].0.version < infos[l].0.version);
        }
        forgetting_keeps_history(rest, version);
        if exists|i: int| 0 <= i < infos.len() && (#[trigger] infos[i]).0.version == version {
            let i = choose|i: int| 0 <= i < infos.len() && (#[trigger] infos[i]).0.version == version;
            assert(rest[i - 1] == infos[i]);
        }
    }
}

/// The end of a change of our prefix keeps the history of our section in order.
pub proof fn finalising_keeps_history(m: ChainModel)
    requires
        m.valid(),
        own_history(m),
    ensures
        own_history(m.finalise_step()),
{
    forgetting_keeps_history(m.state.our_infos, m.least_known());
    infos_from_keeps_last(m.state.our_infos, m.least_known());
}

/// Votes, agreement on the membership, and what follows from them leave the history of our section as
/// it is.
pub proof fn other_steps_keep_history(
    m: ChainModel,
    e: EventModel,
    proof: Proof,
    proofs: ProofMap,
    id: PublicId,
)
    requires
        own_history(m),
    ensures
        own_history(m.vote_step(e, proof)),
        own_history(m.churn_step(e, proofs).0),
        own_history(m.add_step(id).0),
        own_history(m.remove_step(id)),
        own_history(m.merge_step()),
{
}

/// We only ever become a member of our section, and do so when a description of it names us.
pub proof fn membership_lasts(m: ChainModel)
    ensures
        m.is_member ==> m.poll_step().0.is_member,
        m.is_member ==> m.finalise_step().is_member,
        forall|info: SectionModel, proofs: ProofMap|
            #![trigger m.with_own_section(info, proofs)]
            m.with_own_section(info, proofs).is_member == (m.is_member || info.members.contains(
                m.our_id,
            )),
{
}

/// Siblings are neighbours, and neither of them is a neighbour of its parent.
proof fn siblings_adjoin(p: Prefix)
    requires
        p.inv(),
        p.bits().len() > 0,
    ensures
        p.adjoins(p.twin()),
        !p.parent().adjoins(p),
        !p.parent().adjoins(p.twin()),
{
    family_bits(p);
    let n = p.bits().len() - 1;
    assert(differ_only_at(p.bits(), p.twin().bits(), n));
    if p.parent().adjoins(p) {
        let i = choose|i: int| differ_only_at(p.parent().bits(), p.bits(), i);
        assert(p.parent().bits()[i] == p.bits()[i]);
    }
    if p.parent().adjoins(p.twin()) {
        let i = choose|i: int| differ_only_at(p.parent().bits(), p.twin().bits(), i);
        assert(p.parent().bits()[i] == p.twin().bits()[i]);
    }
}

/// Whatever overlaps with an extension of a prefix overlaps with the prefix.
proof fn overlaps_shorter(q: Prefix, long: Prefix, short: Prefix)
    requires
        long.extends(short),
        q.compatible(long),
    ensures
        q.compatible(short),
{
    let (a, b, c) = (q.bits(), long.bits(), short.bits());
    if begins(a, b) {
        if a.len() <= c.len() {
            assert forall|i: int| 0 <= i < a.len() implies a[i] == c[i] by {
                assert(a[i] == b[i] && c[i] == b[i]);
            }
        } else {
            assert forall|i: int| 0 <= i < c.len() implies c[i] == a[i] by {
                assert(a[i] == b[i] && c[i] == b[i]);
            }
        }
    } else {
        assert forall|i: int| 0 <= i < c.len() implies c[i] == a[i] by {
            assert(c[i] == b[i] && b[i] == a[i]);
        }
    }
}

/// When the second half of our splitting section comes in, whichever that is, our half becomes our
/// section and the other half its neighbour.
pub proof fn split_takes_effect(m: ChainModel, first: Confirmed, second: Confirmed, ours: bool)
    requires
        m.valid(),
        m.state.split_cache == Some(first),
        first.0.valid(),
        second.0.valid(),
        first.0.prefix.extends(m.our_prefix()),
        second.0.prefix.extends(m.our_prefix()),
        second.0.prefix == first.0.prefix.twin(),
        first.0.prefix.covers(m.our_name()) == ours,
        second.0.prefix.covers(m.our_name()) == !ours,
        m.our_info().quorum(first.1),
        m.our_info().quorum(second.1),
    ensures
        m.section_step(second.0, second.1).1 is Ok,
        m.section_step(second.0, second.1).0.our_info() == (if ours {
            first.0
        } else {
            second.0
        }),
        m.section_step(second.0, second.1).0.state.split_cache is None,
        ({
            let other = if ours {
                second.0
            } else {
                first.0
            };
            let next = m.section_step(second.0, second.1).0;
            next.neighbours.dom().contains(other.prefix) && next.neighbours[other.prefix].sec_info
                == other
        }),
        ({
            let (own, other) = if ours {
                (first, second)
            } else {
                (second, first)
            };
            let next = m.section_step(second.0, second.1).0;
            &&& next.state.our_infos == m.state.our_infos.push(own)
            &&& next.neighbours[other.0.prefix].proofs == other.1
            &&& next.is_member == (m.is_member || own.0.members.contains(m.our_id))
            &&& next.state.new_info == m.state.new_info
            &&& next.state.change == m.state.change
        }),
{
    let (own, other) = if ours {
        (first, second)
    } else {
        (second, first)
    };
    let taken = ChainModel { state: StateModel { split_cache: None, ..m.state }, ..m };
    let m1 = taken.with_own_section(own.0, own.1);
    let infos = m.state.our_infos;
    let more = infos.push(own);
    assert(m1.state.our_infos == more);
    assert(m1.our_prefix() == own.0.prefix);
    let f = |x: Confirmed| x.0.quorum(other.1);
    find_last_props(more, f);
    if find_last(more, f) is None {
        let last = infos.len() - 1;
        assert(more[last] == infos[last]);
        assert(!f(more[last]));
    }
    let signer = m1.signing_info(other.1)->0;
    family_bits(first.0.prefix);
    siblings_adjoin(first.0.prefix);
    adjoining_symmetric(first.0.prefix, second.0.prefix);
    assert forall|q: Prefix| #[trigger] m1.neighbours.dom().contains(q) implies !q.compatible(
        other.0.prefix,
    ) by {
        assert(m.neighbours.dom().contains(q));
        if q.compatible(other.0.prefix) {
            overlaps_shorter(q, other.0.prefix, m.our_prefix());
            adjoining_do_not_overlap(m.our_prefix(), q);
        }
    }
    added_neighbour_is_known(m1, other.0, other.1, signer.0.version);
}

/// Being neighbours is symmetric.
pub proof fn adjoining_symmetric(p: Prefix, q: Prefix)
    requires
        p.adjoins(q),
    ensures
        q.adjoins(p),
{
    let i = choose|i: int| differ_only_at(p.bits(), q.bits(), i);
    assert(differ_only_at(q.bits(), p.bits(), i));
}

/// When our section has merged, its former sibling is no longer a neighbour.
pub proof fn merge_takes_effect(m: ChainModel, info: SectionModel, proofs: ProofMap)
    requires
        m.our_prefix().inv(),
        m.our_prefix().bits().len() > 0,
        info.prefix == m.our_prefix().parent(),
        info.prefix.covers(m.our_name()),
    ensures
        m.section_step(info, proofs).1 is Ok,
        m.section_step(info, proofs).0.our_info() == info,
        !m.section_step(info, proofs).0.neighbours.dom().contains(m.our_prefix().twin()),
{
    family_bits(m.our_prefix());
    siblings_adjoin(m.our_prefix());
}

/// What siblings merge to is newer than both of them, by one step than the newer one.
pub proof fn merged_section_is_newer(m: ChainModel)
    requires
        m.can_merge(),
        m.our_info().version < u64::MAX,
        m.neighbours[m.our_prefix().twin()].sec_info.version < u64::MAX,
    ensures
        ({
            let ours = m.state.our_infos.last().0.version;
            let theirs = m.neighbours[m.our_prefix().twin()].sec_info.version;
            let merged = m.merge_step().state.new_info.version;
            &&& merged > ours
            &&& merged > theirs
            &&& merged == ours + 1 || merged == theirs + 1
        }),
{
}

/// Both siblings compute the same merged section.
pub proof fn siblings_agree_on_merge(a: SectionModel, b: SectionModel)
    requires
        a.prefix.inv(),
        b.prefix == a.prefix.twin(),
    ensures
        a.merged(b) == b.merged(a),
{
    family_bits(a.prefix);
    assert(a.prefix.parent_bits() =~= b.prefix.parent_bits());
    assert(a.members.union(b.members) =~= b.members.union(a.members));
    assert(set![a.hash, b.hash] =~= set![b.hash, a.hash]);
}

/// Our section merges exactly when its sibling is known and both have agreed to. That only changes
/// the latest description of our section, and takes back the agreement of both.
pub proof fn merge_needs_both(m: ChainModel)
    ensures
        m.can_merge() <==> m.neighbours.dom().contains(m.our_prefix().twin())
            && m.state.merging.contains(m.state.our_infos.last().0.hash)
            && m.state.merging.contains(m.neighbours[m.our_prefix().twin()].sec_info.hash),
        m.merge_step() == (ChainModel {
            state: StateModel {
                new_info: m.merge_step().state.new_info,
                merging: m.merge_step().state.merging,
                ..m.state
            },
            ..m
        }),
        forall|digest: Digest256| #[trigger]
            m.merge_step().state.merging.contains(digest) <==> m.state.merging.contains(digest)
                && digest != m.our_info().hash && digest
                != m.neighbours[m.our_prefix().twin()].sec_info.hash,
{
}

/// What siblings have merged to can take effect: it is newer than everything that it overlaps with,
/// so that nothing but earlier events keeps it from doing so once more than half of our section has
/// signed it. `later` is the chain with those votes.
pub proof fn merged_section_takes_effect(m: ChainModel, later: ChainModel)
    requires
        m.can_merge(),
        m.our_info().version < u64::MAX,
        m.neighbours[m.our_prefix().twin()].sec_info.version < u64::MAX,
        m.our_prefix().bits().len() > 0,
        m.our_prefix().covers(m.our_name()),
        later.valid(),
        separate(later),
        later.our_id == m.our_id,
        later.neighbours == m.neighbours,
        later.state.our_infos == m.state.our_infos,
        later.accumulator.dom().contains(EventModel::SectionInfo(m.merge_step().state.new_info)),
        majority(
            m.our_info().members,
            later.accumulator[EventModel::SectionInfo(m.merge_step().state.new_info)],
        ),
    ensures
        later.due() matches Some(f) && (f == EventModel::SectionInfo(
            m.merge_step().state.new_info,
        ) || key_less::<NetworkEvent>(
            f,
            EventModel::SectionInfo(m.merge_step().state.new_info),
        )),
{
    let info = m.merge_step().state.new_info;
    let p = m.our_prefix();
    assert(later.state.our_infos[later.state.our_infos.len() - 1].0.valid());
    family_bits(p);
    assert forall|q: Prefix| #[trigger]
        later.neighbours.dom().contains(q) && q.compatible(info.prefix) implies
        later.neighbours[q].sec_info.version < info.version by {
        if q != p.twin() {
            assert(p.adjoins(q));
            adjoining_do_not_overlap(p, q);
            assert(later.neighbours.dom().contains(p.twin()));
            assert(!q.compatible(p.twin()));
            let u = info.prefix.bits();
            if begins(q.bits(), u) {
                assert(begins(q.bits(), p.bits()));
            } else {
                let n = u.len() as int;
                assert(q.bits().len() > n) by {
                    if q.bits().len() == n {
                        assert(begins(q.bits(), u));
                    }
                }
                if q.bits()[n] == p.bits()[n] {
                    assert forall|i: int| 0 <= i < p.bits().len() implies p.bits()[i]
                        == q.bits()[i] by {
                        if i < n {
                            assert(u[i] == q.bits()[i]);
                        }
                    }
                    assert(begins(p.bits(), q.bits()));
                } else {
                    assert forall|i: int| 0 <= i < p.twin().bits().len() implies p.twin().bits()[i]
                        == q.bits()[i] by {
                        if i < n {
                            assert(u[i] == q.bits()[i]);
                        }
                    }
                    assert(begins(p.twin().bits(), q.bits()));
                }
            }
        }
    }
    newer_section_is_handled(later, info);
}

/// Our section should merge exactly when it has a sibling, is not splitting, and is too small itself
/// or overlaps with the sibling of a neighbour that is too small or has agreed to merge.
pub proof fn merge_is_needed(m: ChainModel)
    requires
        m.valid(),
    ensures
        m.should_merge() <==> {
            &&& m.our_prefix().bits().len() > 0
            &&& m.state.change != PrefixChange::Splitting
            &&& m.state.our_infos.last().0.members.len() < m.min_sec_size || exists|p: Prefix|
                #[trigger]
                m.neighbours.dom().contains(p) && m.our_prefix().compatible(
                    m.neighbours[p].sec_info.prefix.twin(),
                ) && (m.neighbours[p].sec_info.members.len() < m.min_sec_size
                    || m.state.merging.contains(m.neighbours[p].sec_info.hash))
        },
{
    let list = m.neighbour_list();
    let keys = m.keys();
    assert forall|p: Prefix| #[trigger] m.neighbours.dom().contains(p) implies list.to_set().contains(
        m.neighbours[p].sec_info,
    ) by {
        assert(keys.to_set().contains(p));
        let i = choose|i: int| 0 <= i < keys.len() && keys[i] == p;
        assert(list[i] == m.neighbours[p].sec_info);
    }
    assert forall|info: SectionModel| #[trigger] list.to_set().contains(info) implies exists|
        p: Prefix,
    | #[trigger]
        m.neighbours.dom().contains(p) && m.neighbours[p].sec_info == info by {
        let i = choose|i: int| 0 <= i < list.len() && list[i] == info;
        assert(keys.to_set().contains(keys[i]));
        assert(m.neighbours.dom().contains(keys[i]));
    }
}

/// The members whose names begin with a prefix.
pub open spec fn under(members: Set<PublicId>, p: Prefix) -> Set<PublicId> {
    members.filter(|id: PublicId| p.covers(id.xor_name()))
}

/// Our section has the given number of members at least in each of its halves.
pub open spec fn halves_have(m: ChainModel, members: Set<PublicId>, size: int) -> bool {
    &&& under(members, m.our_prefix().child(false)).len() >= size
    &&& under(members, m.our_prefix().child(true)).len() >= size
}

proof fn halves_count(m: ChainModel, members: Set<PublicId>)
    requires
        m.valid(),
        members.finite(),
        m.our_prefix().bits().len() < 256,
        m.our_prefix().covers(m.our_name()),
    ensures
        m.near(members) == under(members, m.our_prefix().child(m.next_bit())),
        under(members, m.our_prefix().child(m.next_bit())).len() + under(
            members,
            m.our_prefix().child(!m.next_bit()),
        ).len() <= members.len(),
        (forall|id: PublicId| #[trigger]
            members.contains(id) ==> m.our_prefix().covers(id.xor_name())) ==> under(
            members,
            m.our_prefix().child(m.next_bit()),
        ).len() + under(members, m.our_prefix().child(!m.next_bit())).len() == members.len(),
{
    let p = m.our_prefix();
    assert(m.state.our_infos[m.state.our_infos.len() - 1].0.valid());
    let n = p.bits().len() as int;
    let c = p.child(m.next_bit());
    let d = p.child(!m.next_bit());
    child_bits(p, m.next_bit());
    child_bits(p, !m.next_bit());
    assert(m.near(members) =~= under(members, c)) by {
        assert forall|x: PublicId| members.contains(x) implies m.near(members).contains(x) == under(
            members,
            c,
        ).contains(x) by {
            same_half(p, m.our_name(), x.xor_name());
        }
    }
    parts_add_up(members, c);
    let rest = members.filter(|id: PublicId| !c.covers(id.xor_name()));
    members.lemma_len_filter(|id: PublicId| !c.covers(id.xor_name()));
    assert(under(members, d).subset_of(rest)) by {
        assert forall|x: PublicId| #[trigger] under(members, d).contains(x) implies rest.contains(
            x,
        ) by {
            assert(d.bits()[n] == x.xor_name().bits()[n]);
            assert(c.bits()[n] != d.bits()[n]);
        }
    }
    vstd::set_lib::lemma_len_subset(under(members, d), rest);
    if forall|id: PublicId| #[trigger] members.contains(id) ==> p.covers(id.xor_name()) {
        assert(under(members, d) =~= rest) by {
            assert forall|x: PublicId| #[trigger] rest.contains(x) implies d.covers(
                x.xor_name(),
            ) by {
                let name = x.xor_name().bits();
                assert(p.covers(x.xor_name()));
                if name[n] == m.next_bit() {
                    assert forall|i: int| 0 <= i < c.bits().len() implies c.bits()[i] == name[i] by {
                        if i < n {
                            assert(p.bits()[i] == name[i]);
                        }
                    }
                    assert(c.covers(x.xor_name()));
                }
                assert forall|i: int| 0 <= i < d.bits().len() implies d.bits()[i] == name[i] by {
                    if i < n {
                        assert(p.bits()[i] == name[i]);
                    }
                }
            }
        }
    }
}

/// A section that can split does: once both halves have one member more than a section needs, a new
/// member divides it. Each member goes to the half whose prefix its name begins with, and the halves
/// are one version newer than the section that has split and directly follow it.
pub proof fn large_section_splits(m: ChainModel, id: PublicId)
    requires
        m.valid(),
        m.our_prefix().covers(m.our_name()),
        m.our_prefix().bits().len() < 256,
        m.state.change == PrefixChange::Stable,
        !m.should_merge(),
        halves_have(m, m.state.new_info.members.insert(id), m.min_sec_size + 1),
        m.state.new_info.version < u64::MAX,
    ensures
        ({
            let members = m.state.new_info.members.insert(id);
            let (next, infos) = m.add_step(id);
            let bit = m.our_name().bits()[m.our_prefix().bits().len() as int];
            &&& infos.len() == 2
            &&& infos[0].prefix.bits() == m.our_prefix().bits().push(bit)
            &&& infos[1].prefix.bits() == m.our_prefix().bits().push(!bit)
            &&& infos[0].members == under(members, infos[0].prefix)
            &&& infos[1].members == members.difference(infos[0].members)
            &&& under(members, infos[1].prefix).subset_of(infos[1].members)
            &&& infos[0].version == m.state.new_info.version + 1
            &&& infos[1].version == m.state.new_info.version + 1
            &&& infos[0].prev_hash == set![m.state.new_info.hash]
            &&& infos[1].prev_hash == set![m.state.new_info.hash]
            &&& next == (ChainModel {
                state: StateModel {
                    new_info: infos[0],
                    change: PrefixChange::Splitting,
                    ..m.state
                },
                ..m
            })
        }),
{
    let members = m.state.new_info.members.insert(id);
    members_finite(m.state.new_info);
    assert(m.state.our_infos[m.state.our_infos.len() - 1].0.valid());
    halves_count(m, members);
    let bit = m.next_bit();
    child_bits(m.our_prefix(), bit);
    child_bits(m.our_prefix(), !bit);
    assert(m.splits(members));
    let a = m.half(members, true);
    let b = m.half(members, false);
    let n = m.our_prefix().bits().len() as int;
    assert(a.members =~= under(members, a.prefix));
    assert(b.members =~= members.difference(a.members));
    assert(under(members, b.prefix).subset_of(b.members)) by {
        assert forall|x: PublicId| #[trigger] under(members, b.prefix).contains(x) implies
            b.members.contains(x) by {
            assert(b.prefix.bits()[n] == x.xor_name().bits()[n]);
            assert(a.prefix.bits()[n] != b.prefix.bits()[n]);
        }
    }
}

/// A section that cannot split does not: not while its prefix changes, not if it should merge, and
/// not if one of the halves would have no more members than a section needs. A new member then only
/// makes for the next version of the section.
pub proof fn small_section_does_not_split(m: ChainModel, id: PublicId)
    requires
        m.valid(),
        m.our_prefix().covers(m.our_name()),
        m.our_prefix().bits().len() < 256,
        forall|x: PublicId| #[trigger]
            m.state.new_info.members.insert(id).contains(x) ==> m.our_prefix().covers(x.xor_name()),
        m.state.change != PrefixChange::Stable || m.should_merge() || !halves_have(
            m,
            m.state.new_info.members.insert(id),
            m.min_sec_size + 1,
        ),
        m.state.new_info.version < u64::MAX,
    ensures
        ({
            let (next, infos) = m.add_step(id);
            &&& infos == seq![next.state.new_info]
            &&& next.state.new_info.members == m.state.new_info.members.insert(id)
            &&& next.state.new_info.prefix == m.state.new_info.prefix
            &&& next.state.new_info.version == m.state.new_info.version + 1
            &&& next.state.new_info.prev_hash == set![m.state.new_info.hash]
            &&& next == (ChainModel {
                state: StateModel { new_info: next.state.new_info, ..m.state },
                ..m
            })
        }),
{
    let members = m.state.new_info.members.insert(id);
    members_finite(m.state.new_info);
    halves_count(m, members);
    assert(!m.splits(members));
}

/// Removing a member makes for the next version of the section without it. Only where that has fewer
/// members than a section needs, it starts to merge.
pub proof fn removal_is_next_version(m: ChainModel, id: PublicId)
    requires
        m.state.new_info.version < u64::MAX,
    ensures
        ({
            let next = m.remove_step(id);
            let info = next.state.new_info;
            &&& forall|x: PublicId| #[trigger]
                info.members.contains(x) <==> m.state.new_info.members.contains(x) && x != id
            &&& info.prefix == m.state.new_info.prefix
            &&& info.version == m.state.new_info.version + 1
            &&& info.prev_hash == set![m.state.new_info.hash]
            &&& next.state.change == (if m.state.new_info.members.remove(id).len()
                < m.min_sec_size {
                PrefixChange::Merging
            } else {
                m.state.change
            })
            &&& next == (ChainModel {
                state: StateModel { new_info: info, change: next.state.change, ..m.state },
                ..m
            })
        }),
{
}

/// The neighbour is no longer needed: it does not adjoin our section, or a newer one overlaps with
/// it.
pub open spec fn is_superseded(m: ChainModel, ours: Prefix, p: Prefix) -> bool {
    ||| !ours.adjoins(p)
    ||| exists|q: Prefix| #[trigger]
        m.neighbours.dom().contains(q) && q.compatible(p) && m.neighbours[q].sec_info.version
            > m.neighbours[p].sec_info.version
}

/// The version of our section that is noted for a neighbour is the last one that more than half of
/// has signed, if that is newer than the one that was noted before.
pub open spec fn is_noted(infos: Seq<Confirmed>, before: u64, proofs: ProofMap, after: u64) -> bool {
    ||| after == before && forall|i: int|
        0 <= i < infos.len() && (#[trigger] infos[i]).0.version > before ==> !majority(
            infos[i].0.members,
            proofs,
        )
    ||| after > before && exists|i: int|
        0 <= i < infos.len() && (#[trigger] infos[i]).0.version == after && majority(
            infos[i].0.members,
            proofs,
        ) && forall|j: int|
            i < j < infos.len() && (#[trigger] infos[j]).0.version > before ==> !majority(
                infos[j].0.members,
                proofs,
            )
}

proof fn updated_is_noted(infos: Seq<Confirmed>, n: NeighbourModel)
    ensures
        updated_by(infos, n).sec_info == n.sec_info,
        updated_by(infos, n).proofs == n.proofs,
        is_noted(infos, n.our_version, n.proofs, updated_by(infos, n).our_version),
{
    let f = |x: Confirmed| n.can_update(x.0);
    if find_last(infos, f) is Some {
        let i = find_last_position(infos, f);
        assert forall|j: int|
            i < j < infos.len() && (#[trigger] infos[j]).0.version > n.our_version implies !majority(
            infos[j].0.members,
            n.proofs,
        ) by {
            assert(!f(infos[j]));
        }
        assert(majority(infos[i].0.members, n.proofs));
    } else {
        find_last_props(infos, f);
        assert forall|i: int|
            0 <= i < infos.len() && (#[trigger] infos[i]).0.version > n.our_version implies !majority(
            infos[i].0.members,
            n.proofs,
        ) by {
            assert(!f(infos[i]));
        }
    }
}

/// A description of our own section that comes in is our section from then on, we become a member if
/// it names us, and of the neighbours exactly those stay that are still needed, with what was known
/// of them.
pub proof fn own_section_takes_effect(m: ChainModel, info: SectionModel, proofs: ProofMap)
    requires
        info.prefix.covers(m.our_name()),
        !info.prefix.extends(m.our_prefix()),
    ensures
        ({
            let (next, result) = m.section_step(info, proofs);
            &&& result == Ok::<(), RoutingError>(())
            &&& next.state.our_infos == m.state.our_infos.push((info, proofs))
            &&& next.our_info() == info
            &&& next.our_prefix() == info.prefix
            &&& next.is_member == (m.is_member || info.members.contains(m.our_id))
            &&& next == (ChainModel {
                state: StateModel { our_infos: next.state.our_infos, ..m.state },
                is_member: next.is_member,
                neighbours: next.neighbours,
                ..m
            })
            &&& forall|p: Prefix| #[trigger]
                next.neighbours.dom().contains(p) <==> m.neighbours.dom().contains(p)
                    && !is_superseded(m, info.prefix, p)
            &&& forall|p: Prefix| #[trigger]
                next.neighbours.dom().contains(p) ==> next.neighbours[p].sec_info
                    == m.neighbours[p].sec_info && next.neighbours[p].proofs
                    == m.neighbours[p].proofs && is_noted(
                    next.state.our_infos,
                    m.neighbours[p].our_version,
                    m.neighbours[p].proofs,
                    next.neighbours[p].our_version,
                )
        }),
{
    let (next, result) = m.section_step(info, proofs);
    let infos = m.state.our_infos.push((info, proofs));
    assert(infos.last() == (info, proofs));
    assert forall|p: Prefix| #[trigger] next.neighbours.dom().contains(p) implies is_noted(
        infos,
        m.neighbours[p].our_version,
        m.neighbours[p].proofs,
        next.neighbours[p].our_version,
    ) by {
        updated_is_noted(infos, m.neighbours[p]);
    }
}

/// The half of our splitting section that comes in first waits for the other one: nothing but that
/// changes, and polling does not return it.
pub proof fn first_half_waits(m: ChainModel, info: SectionModel, proofs: ProofMap)
    requires
        info.prefix.extends(m.our_prefix()),
        m.state.split_cache is None,
    ensures
        m.section_step(info, proofs) == (
            ChainModel {
                state: StateModel { split_cache: Some((info, proofs)), ..m.state },
                ..m
            },
            Ok::<(), RoutingError>(()),
        ),
        m.due() == Some(EventModel::SectionInfo(info)) ==> m.poll_step().1 == Ok::<
            Option<EventModel>,
            RoutingError,
        >(None),
{
}

/// Polling returns any other section that takes effect.
pub proof fn other_sections_are_returned(m: ChainModel, info: SectionModel)
    requires
        m.valid(),
        m.due() == Some(EventModel::SectionInfo(info)),
        !info.prefix.extends(m.our_prefix()),
        m.state.split_cache is None,
    ensures
        m.poll_step().1 == Ok::<Option<EventModel>, RoutingError>(
            Some(EventModel::SectionInfo(info)),
        ),
{
    let e = EventModel::SectionInfo(info);
    let proofs = m.accumulator[e];
    due_event_is_waiting(m);
    let f = |x: Confirmed| x.0.quorum(proofs);
    find_last_props(m.state.our_infos, f);
    let k = m.state.our_infos.len() - 1;
    assert(f(m.state.our_infos[k]));
}

/// A neighbour that comes in is known from then on, with its signatures and the latest version of
/// our section that more than half of has signed it, unless a newer one overlaps with it.
pub proof fn neighbour_takes_effect(m: ChainModel, info: SectionModel, proofs: ProofMap, i: int)
    requires
        info.valid(),
        rising(m.state.our_infos),
        !info.prefix.covers(m.our_name()),
        !info.prefix.extends(m.our_prefix()),
        m.our_prefix().adjoins(info.prefix),
        forall|q: Prefix| #[trigger]
            m.neighbours.dom().contains(q) && q != info.prefix && q.compatible(info.prefix)
                ==> m.neighbours[q].sec_info.version <= info.version,
        0 <= i < m.state.our_infos.len(),
        majority(m.state.our_infos[i].0.members, proofs),
        forall|j: int|
            i < j < m.state.our_infos.len() ==> !majority(
                (#[trigger] m.state.our_infos[j]).0.members,
                proofs,
            ),
    ensures
        ({
            let (next, result) = m.section_step(info, proofs);
            &&& result == Ok::<(), RoutingError>(())
            &&& next.state == m.state
            &&& next == (ChainModel { neighbours: next.neighbours, ..m })
            &&& next.neighbours.dom().contains(info.prefix)
            &&& next.neighbours[info.prefix] == (NeighbourModel {
                sec_info: info,
                proofs,
                our_version: m.state.our_infos[i].0.version,
            })
        }),
{
    let f = |x: Confirmed| x.0.quorum(proofs);
    let infos = m.state.our_infos;
    assert forall|j: int| i < j < infos.len() implies !f(infos[j]) by {
        assert(!majority(infos[j].0.members, proofs));
    }
    find_last_at(infos, f, i);
    let v = infos[i].0.version;
    added_neighbour_is_known(m, info, proofs, v);
    let n = NeighbourModel { sec_info: info, proofs, our_version: v };
    updated_is_noted(infos, n);
    let after = updated_by(infos, n).our_version;
    if after > v {
        let k = choose|k: int|
            0 <= k < infos.len() && (#[trigger] infos[k]).0.version == after && majority(
                infos[k].0.members,
                proofs,
            );
        assert(k <= i);
        assert(infos[k].0.version <= infos[i].0.version);
    }
    family_bits(info.prefix);
    let m1 = m.neighbours_with(info.prefix, n);
    assert(m1.neighbours[info.prefix] == n);
    if m1.other_half_needed(info) {
        if info.prefix.bits().len() == 0 {
            Prefix::bits_injective(info.prefix, info.prefix.twin());
        }
        assert(info.prefix.twin() != info.prefix);
    }
}

/// A neighbour that no version of our section has signed is refused, and changes nothing.
pub proof fn unsigned_neighbour_is_refused(m: ChainModel, info: SectionModel, proofs: ProofMap)
    requires
        !info.prefix.covers(m.our_name()),
        !info.prefix.extends(m.our_prefix()),
        forall|i: int|
            0 <= i < m.state.our_infos.len() ==> !majority(
                (#[trigger] m.state.our_infos[i]).0.members,
                proofs,
            ),
    ensures
        m.section_step(info, proofs) == (
            m,
            Err::<(), RoutingError>(RoutingError::InvalidMessage),
        ),
{
    let f = |x: Confirmed| x.0.quorum(proofs);
    find_last_props(m.state.our_infos, f);
    if m.signing_info(proofs) is Some {
        let i = find_last_position(m.state.our_infos, f);
        assert(!majority(m.state.our_infos[i].0.members, proofs));
    }
}

/// Other neighbours stay with what was known of them if they are still needed.
pub proof fn other_neighbours_stay(
    m: ChainModel,
    info: SectionModel,
    proofs: ProofMap,
    p: Prefix,
)
    requires
        m.valid(),
        info.valid(),
        !info.prefix.covers(m.our_name()),
        !info.prefix.extends(m.our_prefix()),
        m.neighbours.dom().contains(p),
        p != info.prefix,
        !is_superseded(m, m.our_prefix(), p),
        !p.compatible(info.prefix) || m.neighbours[p].sec_info.version >= info.version,
    ensures
        m.section_step(info, proofs).0.neighbours.dom().contains(p),
        m.section_step(info, proofs).0.neighbours[p] == m.neighbours[p],
{
    let (next, result) = m.section_step(info, proofs);
    if result is Ok {
        let signer = m.signing_info(proofs)->0;
        let v = signer.0.version;
        let n = NeighbourModel { sec_info: info, proofs, our_version: v };
        let m1 = m.neighbours_with(info.prefix, n);
        family_bits(info.prefix);
        let twin = info.prefix.twin();
        let parent = info.prefix.parent();
        let half = m1.other_half_needed(info);
        let m2 = if half {
            m1.neighbours_with(twin, m1.neighbours[parent])
        } else {
            m1
        };
        assert(next == m2.cleaned(Some(info.prefix)));
        if half {
            assert(p != twin);
        }
        assert(m2.neighbours[p] == m.neighbours[p]);
        assert(m2.keeps(p)) by {
            assert forall|q: Prefix| #[trigger] m2.neighbours.dom().contains(q) && q.compatible(p)
                implies m2.neighbours[q].sec_info.version <= m2.neighbours[p].sec_info.version by {
                if q == info.prefix {
                    compatible_symmetric(p, q);
                } else if half && q == twin {
                    assert(m1.neighbours.dom().contains(parent));
                    compatible_symmetric(p, twin);
                    overlaps_parent(info.prefix, p);
                    compatible_symmetric(p, parent);
                    assert(m.neighbours.dom().contains(parent)) by {
                        if parent == info.prefix {
                            assert(m1.neighbours[parent].sec_info == info);
                        }
                    }
                } else {
                    assert(m.neighbours.dom().contains(q));
                }
            }
        }
    }
}

/// The end of a change of our prefix drops the descriptions of our section before the least version
/// that another section knows, or before version zero where none knows any, but nothing if there is
/// no description with that version.
pub proof fn finalising_trims_history(m: ChainModel, v: u64, i: int)
    requires
        m.their_knowledge.dom() == Set::<Prefix>::empty() ==> v == 0,
        m.their_knowledge.dom() != Set::<Prefix>::empty() ==> (exists|p: Prefix| #[trigger]
            m.their_knowledge.dom().contains(p) && m.their_knowledge[p] == v) && forall|p: Prefix|
            #[trigger]
            m.their_knowledge.dom().contains(p) ==> v <= m.their_knowledge[p],
        0 <= i <= m.state.our_infos.len(),
        forall|j: int| 0 <= j < i ==> (#[trigger] m.state.our_infos[j]).0.version != v,
        i < m.state.our_infos.len() ==> m.state.our_infos[i].0.version == v,
    ensures
        m.finalise_step().state.our_infos == (if i < m.state.our_infos.len() {
            m.state.our_infos.skip(i)
        } else {
            m.state.our_infos
        }),
{
    assert(m.is_least_known(v));
    m.least_known_unique(v, m.least_known());
    let infos = m.state.our_infos;
    if i < infos.len() {
        tail_from_at(infos, v, i);
    }
}

/// The end of a change of our prefix leaves everything else that we know as it is, but that the
/// version of our section that is noted for a neighbour can become newer.
pub proof fn finalising_keeps_the_rest(m: ChainModel)
    requires
        m.valid(),
        separate(m),
    ensures
        ({
            let next = m.finalise_step();
            &&& next.min_sec_size == m.min_sec_size
            &&& next.our_id == m.our_id
            &&& next.is_member == m.is_member
            &&& next.candidate == m.candidate
            &&& next.their_knowledge == m.their_knowledge
            &&& next.state.new_info == m.state.new_info
            &&& next.state.split_cache == m.state.split_cache
            &&& next.state.merging == Set::<Digest256>::empty()
            &&& next.neighbours.dom() == m.neighbours.dom()
            &&& forall|p: Prefix| #[trigger]
                m.neighbours.dom().contains(p) ==> next.neighbours[p].sec_info
                    == m.neighbours[p].sec_info && next.neighbours[p].proofs
                    == m.neighbours[p].proofs && is_noted(
                    next.state.our_infos,
                    m.neighbours[p].our_version,
                    m.neighbours[p].proofs,
                    next.neighbours[p].our_version,
                )
        }),
{
    let next = m.finalise_step();
    let infos = m.state.infos_from(m.least_known());
    infos_from_keeps_last(m.state.our_infos, m.least_known());
    let trimmed = ChainModel { state: StateModel { our_infos: infos, ..m.state }, ..m };
    assert forall|p: Prefix| #[trigger] m.neighbours.dom().contains(p) implies trimmed.keeps(p)
        && is_noted(
        infos,
        m.neighbours[p].our_version,
        m.neighbours[p].proofs,
        next.neighbours[p].our_version,
    ) by {
        assert forall|q: Prefix| #[trigger]
            trimmed.neighbours.dom().contains(q) && q.compatible(p) implies
            trimmed.neighbours[q].sec_info.version <= trimmed.neighbours[p].sec_info.version by {
            assert(m.neighbours.dom().contains(q));
        }
        assert(trimmed.keeps(p));
        updated_is_noted(infos, m.neighbours[p]);
    }
    assert(next.neighbours.dom() =~= m.neighbours.dom());
}

/// A description of our section is found by its digest if there is one.
pub proof fn section_is_found_by_hash(m: ChainModel, hash: Digest256)
    ensures
        match m.state.info_with_hash(hash) {
            Some(x) => m.state.our_infos.contains(x) && x.0.hash == hash,
            None => forall|i: int|
                0 <= i < m.state.our_infos.len() ==> (#[trigger] m.state.our_infos[i]).0.hash
                    != hash,
        },
{
    find_first_props(m.state.our_infos, |x: Confirmed| x.0.hash == hash);
}

/// `known` is the section itself, or more than half of it and only valid signatures confirm the
/// section, which directly follows it.
pub open spec fn backs(known: SectionModel, info: SectionModel, proofs: ProofMap) -> bool {
    &&& info.prev_hash.contains(known.hash)
    &&& majority(known.members, proofs)
    &&& forall|id: PublicId| #[trigger]
        proofs.dom().contains(id) ==> ed25519_valid(
            proofs[id].0@,
            seq![SECTION_INFO_TAG] + info.bytes(),
            id.signing_key().0@,
        )
}

/// A neighbour is valid exactly if the first neighbour that overlaps with it is that section or backs
/// it, or a section that we have signed backs it.
pub proof fn valid_neighbour_is_backed(m: ChainModel, info: SectionModel, proofs: ProofMap)
    requires
        m.valid(),
    ensures
        m.valid_neighbour(info, proofs) <==> {
            ||| exists|p: Prefix| #[trigger]
                m.neighbours.dom().contains(p) && p.compatible(info.prefix) && (forall|q: Prefix|
                    #[trigger]
                    m.neighbours.dom().contains(q) && q.compatible(info.prefix) ==> q == p
                        || key_less::<Prefix>(p, q)) && (m.neighbours[p].sec_info == info || backs(
                    m.neighbours[p].sec_info,
                    info,
                    proofs,
                ))
            ||| exists|known: SectionModel|
                #![trigger m.accumulator.dom().contains(EventModel::SectionInfo(known))]
                m.accumulator.dom().contains(EventModel::SectionInfo(known))
                    && m.accumulator[EventModel::SectionInfo(known)].dom().contains(m.our_id)
                    && backs(known, info, proofs)
        },
{
    let f = |p: Prefix| p.compatible(info.prefix);
    find_first_least::<Prefix>(m.neighbours.dom(), f);
    if find_first(m.keys(), f) is Some {
        let x = find_first(m.keys(), f)->0;
        assert(m.neighbours.dom().contains(x) && f(x));
        assert forall|q: Prefix| #[trigger]
            m.neighbours.dom().contains(q) && q.compatible(info.prefix) implies q == x
            || key_less::<Prefix>(x, q) by {
            assert(f(q));
        }
        assert forall|p: Prefix| #[trigger]
            m.neighbours.dom().contains(p) && p.compatible(info.prefix) && (forall|q: Prefix|
                #[trigger]
                m.neighbours.dom().contains(q) && q.compatible(info.prefix) ==> q == p || key_less::<
                    Prefix,
                >(p, q)) implies p == x by {
            if p != x {
                lex_asymmetric(Prefix::code(p), Prefix::code(x));
            }
        }
    } else {
        assert forall|p: Prefix| #[trigger] m.neighbours.dom().contains(p) implies !p.compatible(
            info.prefix,
        ) by {
            assert(!f(p));
        }
    }
    assert forall|known: SectionModel| #[trigger] backs(known, info, proofs) == known.confirms(
        info,
        proofs,
    ) by {}
    if exists|e: EventModel| #[trigger] m.signed(e) && e.confirms(info, proofs) {
        let e = choose|e: EventModel| #[trigger] m.signed(e) && e.confirms(info, proofs);
        let known = e->SectionInfo_0;
        assert(backs(known, info, proofs));
        assert(e == EventModel::SectionInfo(known));
    }
    if exists|known: SectionModel|
        #![trigger m.accumulator.dom().contains(EventModel::SectionInfo(known))]
        m.accumulator.dom().contains(EventModel::SectionInfo(known))
            && m.accumulator[EventModel::SectionInfo(known)].dom().contains(m.our_id) && backs(
            known,
            info,
            proofs,
        ) {
        let known = choose|known: SectionModel|
            #![trigger m.accumulator.dom().contains(EventModel::SectionInfo(known))]
            m.accumulator.dom().contains(EventModel::SectionInfo(known))
                && m.accumulator[EventModel::SectionInfo(known)].dom().contains(m.our_id) && backs(
                known,
                info,
                proofs,
            );
        let e = EventModel::SectionInfo(known);
        assert(m.signed(e) && e.confirms(info, proofs));
    }
}

/// The next section is one version newer than the one that it directly and only follows. The first
/// one has version zero and follows none.
pub proof fn next_section_follows(members: Set<PublicId>, prefix: Prefix, prev: SectionModel)
    requires
        prev.version < u64::MAX,
    ensures
        SectionModel::next(members, prefix, Some(prev)).members == members,
        SectionModel::next(members, prefix, Some(prev)).prefix == prefix,
        SectionModel::next(members, prefix, Some(prev)).version == prev.version + 1,
        forall|hash: Digest256| #[trigger]
            SectionModel::next(members, prefix, Some(prev)).prev_hash.contains(hash) <==> hash
                == prev.hash,
        SectionModel::next(members, prefix, None).members == members,
        SectionModel::next(members, prefix, None).prefix == prefix,
        SectionModel::next(members, prefix, None).version == 0,
        SectionModel::next(members, prefix, None).prev_hash == Set::<Digest256>::empty(),
        SectionModel::next(members, prefix, Some(prev)).follows(prev),
{
}

/// A section follows exactly those whose digests it names.
pub proof fn following_is_by_digest(info: SectionModel, other: SectionModel)
    ensures
        info.follows(other) <==> info.prev_hash.contains(other.hash),
{
}

/// What siblings merge to has the members of both, the prefix without its last bit, and follows both
/// and nothing else.
pub proof fn merged_section_joins(a: SectionModel, b: SectionModel)
    requires
        a.prefix.inv(),
        a.prefix.bits().len() > 0,
        a.version < u64::MAX,
        b.version < u64::MAX,
    ensures
        forall|id: PublicId| #[trigger]
            a.merged(b).members.contains(id) <==> a.members.contains(id) || b.members.contains(id),
        a.merged(b).prefix.bits() == a.prefix.bits().drop_last(),
        forall|hash: Digest256| #[trigger]
            a.merged(b).prev_hash.contains(hash) <==> hash == a.hash || hash == b.hash,
        a.merged(b).version > a.version,
        a.merged(b).version > b.version,
        a.merged(b).version == a.version + 1 || a.merged(b).version == b.version + 1,
{
    family_bits(a.prefix);
}

/// A chain starts with the section that it is founded with, without neighbours and events, and we are
/// a member if that section names us.
pub proof fn founded_chain(min_sec_size: usize, our_id: PublicId, first: SectionModel)
    ensures
        ({
            let m = ChainModel::founded(min_sec_size, our_id, first);
            &&& m.min_sec_size == min_sec_size
            &&& m.our_id == our_id
            &&& m.our_info() == first
            &&& m.our_prefix() == first.prefix
            &&& m.state.our_infos.len() == 1
            &&& m.state.our_infos[0].1.dom() == Set::<PublicId>::empty()
            &&& m.state.new_info == first
            &&& m.state.change == PrefixChange::Stable
            &&& m.state.merging == Set::<Digest256>::empty()
            &&& m.state.split_cache is None
            &&& m.is_member == first.members.contains(our_id)
            &&& m.neighbours.dom() == Set::<Prefix>::empty()
            &&& m.their_knowledge.dom() == Set::<Prefix>::empty()
            &&& m.accumulator.dom() == Set::<EventModel>::empty()
            &&& m.completed == Set::<EventModel>::empty()
            &&& m.event_cache == Set::<EventModel>::empty()
            &&& m.candidate is Nobody
        }),
{
}

/// Our section has agreed to merge exactly if its digest is noted, of its confirmed description or of
/// its latest one.
pub proof fn merge_readiness(m: ChainModel)
    ensures
        m.state.is_merge_ready() <==> m.state.merging.contains(m.state.our_infos.last().0.hash)
            || m.state.merging.contains(m.state.new_info.hash),
{
}

/// No neighbour comes from nowhere: after a section came in that is not our own, the neighbours are
/// some of those before, the section itself, and its sibling if that goes on with what was known of
/// their parent.
pub proof fn neighbours_come_from_somewhere(
    m: ChainModel,
    info: SectionModel,
    proofs: ProofMap,
    p: Prefix,
)
    requires
        info.prefix.inv(),
        info.prefix.bits().len() > 0,
        !info.prefix.covers(m.our_name()),
        !info.prefix.extends(m.our_prefix()),
        m.section_step(info, proofs).0.neighbours.dom().contains(p),
    ensures
        ({
            let next = m.section_step(info, proofs).0;
            let parent = info.prefix.parent();
            ||| m.neighbours.dom().contains(p) && p != info.prefix && next.neighbours[p]
                == m.neighbours[p]
            ||| p == info.prefix && next.neighbours[p].sec_info == info && next.neighbours[p].proofs
                == proofs
            ||| m.section_step(info, proofs).1 is Err && next.neighbours[p] == m.neighbours[p]
            ||| p == info.prefix.twin() && m.neighbours.dom().contains(parent)
                && m.neighbours[parent].sec_info.version < info.version
                && !m.neighbours.dom().contains(p) && next.neighbours[p] == m.neighbours[parent]
        }),
        m.section_step(info, proofs).1 is Ok ==> m.our_prefix().adjoins(p),
{
    let (next, result) = m.section_step(info, proofs);
    if result is Ok {
        let signer = m.signing_info(proofs)->0;
        let v = signer.0.version;
        let n = NeighbourModel { sec_info: info, proofs, our_version: v };
        let m1 = m.neighbours_with(info.prefix, n);
        family_bits(info.prefix);
        let twin = info.prefix.twin();
        let parent = info.prefix.parent();
        assert(parent != info.prefix && parent != twin && twin != info.prefix) by {
            assert(parent.bits().len() < info.prefix.bits().len());
            assert(twin.bits().last() != info.prefix.bits().last());
        }
        let m2 = if m1.other_half_needed(info) {
            m1.neighbours_with(twin, m1.neighbours[parent])
        } else {
            m1
        };
        assert(next == m2.cleaned(Some(info.prefix)));
        assert(m2.neighbours.dom().contains(p));
        updated_is_noted(m.state.our_infos, n);
    }
}

/// Where half of a neighbour comes in that is newer than the whole, and the other half is a neighbour
/// that is not known yet, the other half goes on with what was known of the whole, and the whole is
/// forgotten.
pub proof fn other_half_goes_on(m: ChainModel, info: SectionModel, proofs: ProofMap, i: int)
    requires
        m.valid(),
        info.valid(),
        separate(m),
        info.prefix.bits().len() > 0,
        !info.prefix.covers(m.our_name()),
        !info.prefix.extends(m.our_prefix()),
        m.neighbours.dom().contains(info.prefix.parent()),
        m.neighbours[info.prefix.parent()].sec_info.version < info.version,
        m.our_prefix().adjoins(info.prefix.twin()),
        !m.neighbours.dom().contains(info.prefix.twin()),
        0 <= i < m.state.our_infos.len(),
        majority(m.state.our_infos[i].0.members, proofs),
    ensures
        ({
            let next = m.section_step(info, proofs).0;
            let twin = info.prefix.twin();
            let parent = info.prefix.parent();
            &&& m.section_step(info, proofs).1 is Ok
            &&& next.neighbours.dom().contains(twin)
            &&& next.neighbours[twin] == m.neighbours[parent]
            &&& !next.neighbours.dom().contains(parent)
        }),
{
    let f = |x: Confirmed| x.0.quorum(proofs);
    find_last_props(m.state.our_infos, f);
    if find_last(m.state.our_infos, f) is None {
        assert(!f(m.state.our_infos[i]));
    }
    let signer = m.signing_info(proofs)->0;
    family_bits(info.prefix);
    assert(m.other_half_needed(info));
    split_neighbour_keeps_other_half(m, info, proofs, signer.0.version);
    neighbours_come_from_somewhere(m, info, proofs, info.prefix.twin());
    assert(info.prefix.twin() != info.prefix) by {
        assert(info.prefix.twin().bits().last() != info.prefix.bits().last());
    }
}

/// A vote for a neighbour that is known adds its signature to the first neighbour in that version that
/// lacks it, and to no other one that lacks it. The version of our section that is noted for it moves
/// on to the latest one that more than half of has signed.
pub proof fn late_vote_goes_to_first(m: ChainModel, info: SectionModel, proof: Proof, p: Prefix)
    requires
        m.valid(),
        separate(m),
        known_version(m, EventModel::SectionInfo(info)),
        m.neighbours.dom().contains(p),
        m.neighbours[p].sec_info == info,
        !m.neighbours[p].proofs.dom().contains(proof.pub_id),
        forall|q: Prefix| #[trigger]
            m.neighbours.dom().contains(q) && m.neighbours[q].sec_info == info
                && !m.neighbours[q].proofs.dom().contains(proof.pub_id) ==> q == p || key_less::<
                Prefix,
            >(p, q),
    ensures
        ({
            let next = m.vote_step(EventModel::SectionInfo(info), proof);
            &&& next.neighbours.dom() == m.neighbours.dom()
            &&& next.neighbours[p].proofs == m.neighbours[p].proofs.insert(
                proof.pub_id,
                proof.sig,
            )
            &&& p == info.prefix ==> is_noted(
                m.state.our_infos,
                m.neighbours[p].our_version,
                next.neighbours[p].proofs,
                next.neighbours[p].our_version,
            )
            &&& forall|q: Prefix| #[trigger]
                m.neighbours.dom().contains(q) ==> next.neighbours[q].sec_info
                    == m.neighbours[q].sec_info
            &&& forall|q: Prefix| #[trigger]
                m.neighbours.dom().contains(q) && q != p && (m.neighbours[q].sec_info != info
                    || !m.neighbours[q].proofs.dom().contains(proof.pub_id))
                    ==> next.neighbours[q].proofs == m.neighbours[q].proofs
        }),
{
    let next = m.vote_step(EventModel::SectionInfo(info), proof);
    let added = m.with_proof_added(info, proof);
    assert(m.lacks_proof(p, info, proof.pub_id));
    assert forall|q: Prefix| key_less::<Prefix>(q, p) implies !#[trigger] m.lacks_proof(
        q,
        info,
        proof.pub_id,
    ) by {
        if m.lacks_proof(q, info, proof.pub_id) {
            lex_asymmetric(Prefix::code(p), Prefix::code(q));
            lex_asymmetric(Prefix::code(p), Prefix::code(p));
        }
    }
    assert forall|q: Prefix| #[trigger] m.neighbours.dom().contains(q) implies added.keeps(q) by {
        assert forall|r: Prefix| #[trigger]
            added.neighbours.dom().contains(r) && r.compatible(q) implies
            added.neighbours[r].sec_info.version <= added.neighbours[q].sec_info.version by {
            assert(m.neighbours.dom().contains(r));
        }
    }
    assert(next == added.cleaned(Some(info.prefix)));
    assert(next.neighbours.dom() =~= m.neighbours.dom());
    updated_is_noted(m.state.our_infos, added.neighbours[p]);
    assert forall|q: Prefix| #[trigger]
        m.neighbours.dom().contains(q) && q != p && (m.neighbours[q].sec_info != info
            || !m.neighbours[q].proofs.dom().contains(proof.pub_id)) implies
        next.neighbours[q].proofs == m.neighbours[q].proofs by {
        updated_is_noted(m.state.our_infos, added.neighbours[q]);
        if m.neighbours[q].sec_info == info {
            assert(key_less::<Prefix>(p, q) && m.lacks_proof(p, info, proof.pub_id));
        }
    }
    assert forall|q: Prefix| #[trigger] m.neighbours.dom().contains(q) implies
        next.neighbours[q].sec_info == m.neighbours[q].sec_info by {
        updated_is_noted(m.state.our_infos, added.neighbours[q]);
    }
}

/// The neighbouring sections are listed in the order of their prefixes, each of them once.
pub proof fn neighbours_are_listed(m: ChainModel)
    requires
        m.valid(),
    ensures
        m.neighbour_list().len() == m.keys().len(),
        forall|i: int|
            0 <= i < m.keys().len() ==> #[trigger] m.neighbour_list()[i]
                == m.neighbours[m.keys()[i]].sec_info,
        forall|p: Prefix| #[trigger] m.keys().contains(p) <==> m.neighbours.dom().contains(p),
        forall|i: int, j: int|
            0 <= i < j < m.keys().len() ==> #[trigger] key_less::<Prefix>(m.keys()[i], m.keys()[j]),
{
    assert forall|p: Prefix| #[trigger] m.keys().contains(p) <==> m.neighbours.dom().contains(p) by {
        assert(m.keys().to_set().contains(p) == m.neighbours.dom().contains(p));
    }
}

/// A section that takes effect is handled with the signatures that were collected for it.
pub proof fn due_section_is_added(m: ChainModel, info: SectionModel)
    requires
        m.due() == Some(EventModel::SectionInfo(info)),
    ensures
        ({
            let e = EventModel::SectionInfo(info);
            let handled = ChainModel {
                completed: m.completed.insert(e),
                accumulator: m.accumulator.remove(e),
                ..m
            };
            let (next, result) = handled.section_step(info, m.accumulator[e]);
            &&& m.poll_step().0 == next
            &&& result matches Err(x) ==> m.poll_step().1 == Err::<Option<EventModel>, RoutingError>(
                x,
            )
            &&& result is Ok ==> m.poll_step().1 is Ok
        }),
{
}

/// When the second half of our splitting section takes effect, polling returns it, and our half is
/// our section from then on.
pub proof fn second_half_is_returned(m: ChainModel, first: Confirmed, info: SectionModel, ours: bool)
    requires
        m.valid(),
        m.due() == Some(EventModel::SectionInfo(info)),
        m.state.split_cache == Some(first),
        first.0.valid(),
        info.valid(),
        first.0.prefix.extends(m.our_prefix()),
        info.prefix.extends(m.our_prefix()),
        info.prefix == first.0.prefix.twin(),
        first.0.prefix.covers(m.our_name()) == ours,
        info.prefix.covers(m.our_name()) == !ours,
        majority(m.our_info().members, first.1),
    ensures
        m.poll_step().1 == Ok::<Option<EventModel>, RoutingError>(
            Some(EventModel::SectionInfo(info)),
        ),
        m.poll_step().0.our_info() == (if ours {
            first.0
        } else {
            info
        }),
        m.poll_step().0.neighbours.dom().contains(if ours {
            info.prefix
        } else {
            first.0.prefix
        }),
{
    let e = EventModel::SectionInfo(info);
    let proofs = m.accumulator[e];
    due_event_is_waiting(m);
    let handled = m.with_completed(e);
    let dom = m.accumulator.dom();
    assert(handled.accumulator.dom() =~= dom.remove(e));
    let q = sorted::<NetworkEvent>(dom);
    assert(q.to_set() == dom);
    assert forall|k: EventModel| #[trigger] dom.remove(e).contains(k) implies
        <NetworkEvent as Coded>::valid(k) by {
        assert(q.to_set().contains(k));
        let i = choose|i: int| 0 <= i < q.len() && q[i] == k;
        assert(<NetworkEvent as Coded>::valid(q[i]));
    }
    sorted_props::<NetworkEvent>(dom.remove(e));
    m.stays_well_formed(handled);
    assert(handled.valid());
    split_takes_effect(handled, first, (info, proofs), ours);
}

} // verus!
