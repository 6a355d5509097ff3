//! What holds of events, whatever order they come in.

use crate::chain_model::ChainModel;
use crate::error::RoutingError;
use crate::id::PublicId;
use crate::neighbour_laws::separate;
use crate::network_event::{EventModel, NetworkEvent};
use crate::order::{key_less, lex_asymmetric, lex_less_at, Coded};
use crate::ordered::sorted;
use crate::prefix::Prefix;
use crate::proof_set::{Proof, ProofMap};
use crate::section_info::SectionModel;
use crate::seqs::{find_first, find_first_least, find_first_props};
use crate::sha3::Digest256;
use crate::shared_state::{infos_from_keeps_last, PrefixChange};
use vstd::prelude::*;

verus! {

/// The event that is due is one that was not handled yet, and it can take effect.
pub proof fn due_event_is_waiting(m: ChainModel)
    requires
        m.valid(),
    ensures
        match m.due() {
            Some(e) => m.accumulator.dom().contains(e) && m.valid_transition(e, m.accumulator[e]),
            None => forall|e: EventModel| #[trigger]
                m.accumulator.dom().contains(e) ==> !m.valid_transition(e, m.accumulator[e]),
        },
{
    let keys = sorted::<NetworkEvent>(m.accumulator.dom());
    let f = |e: EventModel| m.valid_transition(e, m.accumulator[e]);
    find_first_props(keys, f);
    match m.due() {
        Some(e) => {
            assert(keys.to_set().contains(e));
        },
        None => {
            assert forall|e: EventModel| #[trigger] m.accumulator.dom().contains(e) implies
                !m.valid_transition(e, m.accumulator[e]) by {
                assert(keys.to_set().contains(e));
                let i = choose|i: int| 0 <= i < keys.len() && keys[i] == e;
                assert(!f(keys[i]));
            }
        },
    }
}

/// Letting an event take effect changes neither what is waiting nor what was handled.
proof fn effect_keeps_events(m: ChainModel, e: EventModel, proofs: ProofMap)
    ensures
        m.effect(e, proofs).0.accumulator == m.accumulator,
        m.effect(e, proofs).0.completed == m.completed,
        m.effect(e, proofs).0.event_cache == m.event_cache,
{
}

/// An event that takes effect is marked as handled and no longer waits, and nothing else that is
/// waiting changes.
pub proof fn poll_handles_one_event(m: ChainModel)
    requires
        m.valid(),
    ensures
        match m.due() {
            Some(e) => {
                &&& m.poll_step().0.completed == m.completed.insert(e)
                &&& m.poll_step().0.accumulator == m.accumulator.remove(e)
                &&& !m.completed.contains(e)
            },
            None => m.poll_step() == (m, Ok::<Option<EventModel>, RoutingError>(None)),
        },
{
    due_event_is_waiting(m);
    if let Some(e) = m.due() {
        effect_keeps_events(m.with_completed(e), e, m.accumulator[e]);
    }
}

/// The event that polling returns is the one that was due.
pub proof fn poll_returns_due_event(m: ChainModel)
    ensures
        m.poll_step().1 matches Ok(Some(e)) ==> m.due() == Some(e),
{
}

/// Polling can only go on until nothing is waiting any more.
pub proof fn polling_ends(m: ChainModel)
    requires
        m.valid(),
        m.due() is Some,
    ensures
        m.poll_step().0.accumulator.dom().len() < m.accumulator.dom().len(),
{
    due_event_is_waiting(m);
    poll_handles_one_event(m);
    let keys = sorted::<NetworkEvent>(m.accumulator.dom());
    assert(m.accumulator.dom() == keys.to_set());
    assert(m.accumulator.dom().finite());
    let e = m.due()->0;
    assert(m.accumulator.remove(e).dom() =~= m.accumulator.dom().remove(e));
}

/// An event that was handled is not handled again: it is not due, stays marked as handled, and
/// neither votes for it nor agreement on it make it wait again.
pub proof fn handled_once(m: ChainModel, e: EventModel)
    requires
        m.valid(),
        m.completed.contains(e),
    ensures
        m.due() != Some(e),
        m.poll_step().0.completed.contains(e),
        forall|proof: Proof| #[trigger]
            m.vote_step(e, proof).accumulator == m.accumulator && m.vote_step(e, proof).completed
                == m.completed,
        forall|proofs: ProofMap|
            (#[trigger] m.churn_step(e, proofs)).0.accumulator == m.accumulator && m.churn_step(
                e,
                proofs,
            ).0.completed == m.completed,
{
    due_event_is_waiting(m);
    poll_handles_one_event(m);
}

/// A vote that is counted adds its signature to those for its event, and to no other ones.
pub proof fn vote_is_counted(m: ChainModel, e: EventModel, proof: Proof)
    requires
        m.can_handle(e),
        !m.can_skip(e),
        !m.completed.contains(e),
    ensures
        m.vote_step(e, proof).proofs_of(e) == m.proofs_of(e).insert(proof.pub_id, proof.sig),
        forall|f: EventModel| f != e ==> #[trigger] m.vote_step(e, proof).proofs_of(f) == m.proofs_of(f),
        m.vote_step(e, proof).state == m.state,
        m.vote_step(e, proof).neighbours == m.neighbours,
{
}

/// Voting twice is the same as voting once.
pub proof fn repeated_vote_changes_nothing(m: ChainModel, e: EventModel, proof: Proof)
    requires
        !m.can_skip(e),
    ensures
        m.vote_step(e, proof).vote_step(e, proof) == m.vote_step(e, proof),
{
    let once = m.vote_step(e, proof);
    let twice = once.vote_step(e, proof);
    assert(once.state == m.state && once.neighbours == m.neighbours);
    assert(!once.can_skip(e));
    if !m.can_handle(e) {
        assert(twice.event_cache =~= once.event_cache);
    } else if !m.completed.contains(e) {
        assert(once.proofs_of(e).insert(proof.pub_id, proof.sig) =~= once.proofs_of(e));
        assert(twice.accumulator =~= once.accumulator);
    }
    assert(twice =~= once);
}

/// An event that we vote for is not lost to a change of our prefix: unless it was handled, it is
/// among those that are voted for again afterwards.
pub proof fn own_vote_is_repeated(m: ChainModel, e: EventModel, proof: Proof)
    requires
        proof.pub_id == m.our_id,
        !m.can_skip(e),
        !m.completed.contains(e),
    ensures
        m.vote_step(e, proof).events_to_repeat().contains(e),
{
    let next = m.vote_step(e, proof);
    if m.can_handle(e) {
        assert(next.signed(e));
    }
}

/// While our prefix changes, agreement on the membership waits for the end of the change.
pub proof fn churn_waits_for_prefix_change(m: ChainModel, e: EventModel, proofs: ProofMap)
    requires
        e is AddElder || e is RemoveElder,
        m.state.change != PrefixChange::Stable,
    ensures
        m.churn_step(e, proofs).1 is Ok,
        m.churn_step(e, proofs).0.accumulator == m.accumulator,
        m.churn_step(e, proofs).0.events_to_repeat().contains(e),
{
}

/// After the end of a change nothing is left of the events before it, our section is the same, and
/// nothing that was handled is voted for again unless it had to wait or is about a merge.
pub proof fn finalising_starts_over(m: ChainModel)
    requires
        m.valid(),
    ensures
        m.finalise_step().state.change == PrefixChange::Stable,
        m.finalise_step().our_info() == m.our_info(),
        m.finalise_step().accumulator == Map::<EventModel, ProofMap>::empty(),
        m.finalise_step().completed == Set::<EventModel>::empty(),
        m.finalise_step().event_cache == Set::<EventModel>::empty(),
        m.finalise_step().events_to_repeat() == Set::<EventModel>::empty(),
        forall|e: EventModel| #[trigger]
            m.events_to_repeat().contains(e) && m.completed.contains(e) ==> m.event_cache.contains(e)
                || e is NeighbourMerge,
{
    let next = m.finalise_step();
    infos_from_keeps_last(m.state.our_infos, m.least_known());
    assert(next.events_to_repeat() =~= Set::<EventModel>::empty());
}

/// More than half of the members have signed.
pub open spec fn majority(members: Set<PublicId>, proofs: ProofMap) -> bool {
    2 * members.intersect(proofs.dom()).len() > members.len()
}

/// An event that takes effect has the signatures of more than half of the members of our latest
/// confirmed section. Only sections that vouch for another one need none.
pub proof fn due_event_has_majority(m: ChainModel)
    requires
        m.valid(),
    ensures
        m.due() matches Some(e) ==> m.accumulator.dom().contains(e) && (e is ProvingSections
            || majority(m.state.our_infos.last().0.members, m.accumulator[e])),
        m.poll_step().1 matches Ok(Some(e)) ==> m.accumulator.dom().contains(e) && (
        e is ProvingSections || majority(
            m.state.our_infos.last().0.members,
            m.accumulator[e],
        )),
        forall|e: EventModel| #[trigger]
            m.poll_step().0.completed.contains(e) && !m.completed.contains(e)
                ==> m.accumulator.dom().contains(e) && (e is ProvingSections || majority(
                m.state.our_infos.last().0.members,
                m.accumulator[e],
            )),
{
    due_event_is_waiting(m);
    poll_handles_one_event(m);
    poll_returns_due_event(m);
}

/// A waiting event that more than half of our section agrees on can take effect as soon as our
/// prefix is not about to change. Agreement on merges does not have to wait for that.
pub open spec fn agreed_on(m: ChainModel, e: EventModel) -> bool {
    &&& m.accumulator.dom().contains(e)
    &&& !(e is SectionInfo)
    &&& e is ProvingSections || majority(m.state.our_infos.last().0.members, m.accumulator[e])
    &&& e is ProvingSections || e is OurMerge || e is NeighbourMerge || m.state.change
        == PrefixChange::Stable
}

/// Where a waiting event was agreed on, polling handles an event that comes no later in the order of
/// the events.
pub proof fn agreed_event_is_handled(m: ChainModel, e: EventModel)
    requires
        m.valid(),
        agreed_on(m, e),
    ensures
        m.due() matches Some(f) && (f == e || key_less::<NetworkEvent>(f, e))
            && m.poll_step().0.completed == m.completed.insert(f) && m.poll_step().0.accumulator
            == m.accumulator.remove(f),
{
    let f = |e: EventModel| m.valid_transition(e, m.accumulator[e]);
    find_first_least::<NetworkEvent>(m.accumulator.dom(), f);
    assert(f(e));
    poll_handles_one_event(m);
}

/// Where nothing else is waiting, polling returns the event that was agreed on.
pub proof fn agreed_event_is_returned(m: ChainModel, e: EventModel)
    requires
        m.valid(),
        agreed_on(m, e),
        m.accumulator.dom() == set![e],
    ensures
        m.poll_step().1 == Ok::<Option<EventModel>, RoutingError>(Some(e)),
        m.poll_step().0.accumulator.dom() == Set::<EventModel>::empty(),
        m.poll_step().0.completed == m.completed.insert(e),
{
    agreed_event_is_handled(m, e);
    due_event_is_waiting(m);
    assert(m.accumulator.remove(e).dom() =~= Set::<EventModel>::empty());
}

/// While our prefix changes, only sections and merges take effect.
pub proof fn change_comes_first(m: ChainModel)
    requires
        m.valid(),
        m.state.change != PrefixChange::Stable,
    ensures
        m.due() matches Some(e) ==> e is SectionInfo || e is OurMerge || e is NeighbourMerge
            || e is ProvingSections,
{
    due_event_is_waiting(m);
}

/// A section that takes effect is newer than our own if they overlap, and newer than the first
/// neighbour that overlaps with it. If it is to become our own, it directly follows ours.
pub proof fn due_section_is_newer(m: ChainModel, info: SectionModel)
    requires
        m.valid(),
        m.due() == Some(EventModel::SectionInfo(info)),
    ensures
        info.prefix.compatible(m.our_prefix()) ==> info.version
            > m.state.our_infos.last().0.version,
        info.prefix.covers(m.our_name()) ==> info.prev_hash.contains(
            m.state.our_infos.last().0.hash,
        ),
        forall|p: Prefix| #[trigger]
            m.neighbours.dom().contains(p) && p.compatible(info.prefix) && info.prefix.compatible(
                m.neighbours[p].sec_info.prefix,
            ) && (forall|q: Prefix| #[trigger]
                m.neighbours.dom().contains(q) && q.compatible(info.prefix) ==> q == p
                    || key_less::<Prefix>(p, q)) ==> m.neighbours[p].sec_info.version
                < info.version,
{
    due_event_is_waiting(m);
    let f = |p: Prefix| p.compatible(info.prefix);
    find_first_least::<Prefix>(m.neighbours.dom(), f);
    assert forall|p: Prefix| #[trigger]
        m.neighbours.dom().contains(p) && p.compatible(info.prefix) && info.prefix.compatible(
            m.neighbours[p].sec_info.prefix,
        ) && (forall|q: Prefix| #[trigger]
            m.neighbours.dom().contains(q) && q.compatible(info.prefix) ==> q == p || key_less::<
                Prefix,
            >(p, q)) implies m.neighbours[p].sec_info.version < info.version by {
        assert(f(p));
        let x = find_first(m.keys(), f)->0;
        assert(m.neighbours.dom().contains(x) && f(x));
        if x != p {
            lex_asymmetric(Prefix::code(x), Prefix::code(p));
        }
    }
}

/// A waiting section that more than half of our section has signed takes effect unless something
/// comes before it, if it is newer than everything that it overlaps with and follows our own section
/// where it is to become that.
pub proof fn newer_section_is_handled(m: ChainModel, info: SectionModel)
    requires
        m.valid(),
        m.accumulator.dom().contains(EventModel::SectionInfo(info)),
        majority(
            m.state.our_infos.last().0.members,
            m.accumulator[EventModel::SectionInfo(info)],
        ),
        info.prefix.compatible(m.our_prefix()) ==> info.version > m.our_info().version,
        info.prefix.covers(m.our_name()) ==> info.prev_hash.contains(m.our_info().hash),
        forall|p: Prefix| #[trigger]
            m.neighbours.dom().contains(p) && p.compatible(info.prefix)
                ==> m.neighbours[p].sec_info.version < info.version,
    ensures
        m.due() matches Some(f) && (f == EventModel::SectionInfo(info) || key_less::<NetworkEvent>(
            f,
            EventModel::SectionInfo(info),
        )) && m.poll_step().0.completed == m.completed.insert(f),
{
    let e = EventModel::SectionInfo(info);
    let g = |p: Prefix| p.compatible(info.prefix);
    find_first_least::<Prefix>(m.neighbours.dom(), g);
    let f = |e: EventModel| m.valid_transition(e, m.accumulator[e]);
    find_first_least::<NetworkEvent>(m.accumulator.dom(), f);
    if m.compatible_neighbour(info) is Some {
        let p = find_first(m.keys(), g)->0;
        assert(m.neighbours.dom().contains(p) && g(p));
    }
    assert(f(e));
    poll_handles_one_event(m);
}

/// We already know the section in that version or a newer one.
pub open spec fn known_version(m: ChainModel, e: EventModel) -> bool {
    e matches EventModel::SectionInfo(info) && {
        ||| info.prefix.covers(m.our_name()) && m.state.our_infos.last().0.version >= info.version
        ||| m.neighbours.dom().contains(info.prefix)
            && m.neighbours[info.prefix].sec_info.version >= info.version
    }
}

/// Our prefix is about to change, and the event is not about that change.
pub open spec fn has_to_wait(m: ChainModel, e: EventModel) -> bool {
    match m.state.change {
        PrefixChange::Stable => false,
        PrefixChange::Merging => !(e is OurMerge) && !(e is NeighbourMerge) && (
        e matches EventModel::SectionInfo(info) ==> info.prefix.compatible(m.our_prefix())
            && info.version > m.state.new_info.version),
        PrefixChange::Splitting => e matches EventModel::SectionInfo(info)
            ==> info.prefix.compatible(m.our_prefix()) && info.version
            > m.state.new_info.version,
    }
}

/// A vote adds its signature to those for its event, whoever it comes from, unless the event was
/// handled, is about what is known, or has to wait. Nothing else changes.
pub proof fn every_vote_counts(m: ChainModel, e: EventModel, proof: Proof)
    requires
        !m.completed.contains(e),
        !known_version(m, e),
        !has_to_wait(m, e),
    ensures
        m.vote_step(e, proof).accumulator.dom() == m.accumulator.dom().insert(e),
        m.vote_step(e, proof).accumulator[e].dom().contains(proof.pub_id),
        m.vote_step(e, proof).accumulator[e][proof.pub_id] == proof.sig,
        forall|id: PublicId|
            id != proof.pub_id ==> (#[trigger] m.vote_step(e, proof).accumulator[e].dom().contains(
                id,
            ) <==> m.accumulator.dom().contains(e) && m.accumulator[e].dom().contains(id)),
        forall|id: PublicId|
            id != proof.pub_id && m.accumulator.dom().contains(e) && m.accumulator[e].dom().contains(
                id,
            ) ==> #[trigger] m.vote_step(e, proof).accumulator[e][id] == m.accumulator[e][id],
        forall|f: EventModel|
            f != e && m.accumulator.dom().contains(f) ==> #[trigger] m.vote_step(
                e,
                proof,
            ).accumulator[f] == m.accumulator[f],
        m.vote_step(e, proof) == (ChainModel {
            accumulator: m.vote_step(e, proof).accumulator,
            ..m
        }),
{
    let next = m.vote_step(e, proof);
    assert(next.accumulator.dom() =~= m.accumulator.dom().insert(e));
}

/// A vote for an event that has to wait is kept if it is ours, so that it can be repeated, and
/// otherwise changes nothing.
pub proof fn own_votes_are_kept(m: ChainModel, e: EventModel, proof: Proof)
    requires
        !known_version(m, e),
        has_to_wait(m, e),
    ensures
        m.vote_step(e, proof) == (ChainModel {
            event_cache: if proof.pub_id == m.our_id {
                m.event_cache.insert(e)
            } else {
                m.event_cache
            },
            ..m
        }),
{
    assert(m.vote_step(e, proof) =~= (ChainModel {
        event_cache: if proof.pub_id == m.our_id {
            m.event_cache.insert(e)
        } else {
            m.event_cache
        },
        ..m
    }));
}

/// A vote for a section that is known never makes it wait: it can only add a signature to what is
/// known of our neighbours.
pub proof fn known_section_does_not_wait(m: ChainModel, info: SectionModel, proof: Proof)
    requires
        known_version(m, EventModel::SectionInfo(info)),
    ensures
        m.vote_step(EventModel::SectionInfo(info), proof) == (ChainModel {
            neighbours: m.vote_step(EventModel::SectionInfo(info), proof).neighbours,
            ..m
        }),
        forall|p: Prefix| #[trigger]
            m.vote_step(EventModel::SectionInfo(info), proof).neighbours.dom().contains(p)
                ==> m.neighbours.dom().contains(p) && m.vote_step(
                EventModel::SectionInfo(info),
                proof,
            ).neighbours[p].sec_info == m.neighbours[p].sec_info,
{
}

/// The signature of a vote for a neighbour that is known is added to those of that neighbour.
pub proof fn late_vote_is_added(m: ChainModel, info: SectionModel, proof: Proof)
    requires
        m.valid(),
        separate(m),
        m.neighbours.dom().contains(info.prefix),
        m.neighbours[info.prefix].sec_info == info,
        forall|q: Prefix| #[trigger]
            m.neighbours.dom().contains(q) && m.neighbours[q].sec_info == info ==> q
                == info.prefix,
    ensures
        ({
            let next = m.vote_step(EventModel::SectionInfo(info), proof);
            &&& next.neighbours.dom() == m.neighbours.dom()
            &&& next.neighbours[info.prefix].sec_info == info
            &&& next.neighbours[info.prefix].proofs == m.neighbours[info.prefix].proofs.insert(
                proof.pub_id,
                proof.sig,
            )
            &&& forall|q: Prefix| #[trigger]
                m.neighbours.dom().contains(q) && q != info.prefix ==> next.neighbours[q]
                    == m.neighbours[q]
        }),
{
    let next = m.vote_step(EventModel::SectionInfo(info), proof);
    let p = info.prefix;
    let added = m.with_proof_added(info, proof);
    assert(!exists|q: Prefix|
        key_less::<Prefix>(q, p) && #[trigger] m.lacks_proof(q, info, proof.pub_id)) by {
        assert forall|q: Prefix| key_less::<Prefix>(q, p) implies !#[trigger] m.lacks_proof(
            q,
            info,
            proof.pub_id,
        ) by {
            if m.lacks_proof(q, info, proof.pub_id) {
                assert(q == p);
                lex_asymmetric(Prefix::code(p), Prefix::code(p));
            }
        }
    }
    assert(m.extra_proof_at(p, info, proof).proofs == m.neighbours[p].proofs.insert(
        proof.pub_id,
        proof.sig,
    ));
    assert forall|q: Prefix| #[trigger] m.neighbours.dom().contains(q) implies added.keeps(q) by {
        assert forall|r: Prefix| #[trigger]
            added.neighbours.dom().contains(r) && r.compatible(q) implies
            added.neighbours[r].sec_info.version <= added.neighbours[q].sec_info.version by {
            assert(m.neighbours.dom().contains(r));
        }
    }
    assert(added.neighbours.dom() =~= m.neighbours.dom());
    assert(added.cleaned(Some(p)).neighbours.dom() =~= m.neighbours.dom());
    assert(next.neighbours.dom() =~= m.neighbours.dom());
}

/// Agreement on the membership waits to take effect, with its signatures, if our prefix is not about
/// to change and it was not handled yet. Agreement on anything else is refused.
pub proof fn agreed_membership_waits(m: ChainModel, e: EventModel, proofs: ProofMap)
    ensures
        (e is AddElder || e is RemoveElder) && m.state.change == PrefixChange::Stable
            && !m.completed.contains(e) ==> m.churn_step(e, proofs) == (
            ChainModel { accumulator: m.accumulator.insert(e, proofs), ..m },
            Ok::<(), RoutingError>(()),
        ),
        (e is AddElder || e is RemoveElder) && m.state.change == PrefixChange::Stable
            && m.completed.contains(e) ==> m.churn_step(e, proofs) == (
            m,
            Ok::<(), RoutingError>(()),
        ),
        (e is AddElder || e is RemoveElder) && m.state.change != PrefixChange::Stable
            ==> m.churn_step(e, proofs) == (
            ChainModel { event_cache: m.event_cache.insert(e), ..m },
            Ok::<(), RoutingError>(()),
        ),
        !(e is AddElder || e is RemoveElder) ==> m.churn_step(e, proofs) == (
            m,
            Err::<(), RoutingError>(RoutingError::InvalidStateForOperation),
        ),
{
}

/// What takes effect: agreement that our section merges starts the merge and notes its latest
/// description, agreement that another one merges notes that one, and everything but a section leaves
/// the sections that we know as they are.
pub proof fn effect_of_event(m: ChainModel, e: EventModel)
    requires
        m.due() == Some(e),
        !(e is SectionInfo),
    ensures
        ({
            &&& m.poll_step().1 == Ok::<Option<EventModel>, RoutingError>(Some(e))
            &&& m.poll_step().0.neighbours == m.neighbours
            &&& m.poll_step().0.their_knowledge == m.their_knowledge
            &&& m.poll_step().0.event_cache == m.event_cache
            &&& m.poll_step().0.candidate == m.candidate
            &&& m.poll_step().0.is_member == m.is_member
            &&& m.poll_step().0.our_id == m.our_id
            &&& m.poll_step().0.min_sec_size == m.min_sec_size
            &&& m.poll_step().0.state.our_infos == m.state.our_infos
            &&& m.poll_step().0.state.new_info == m.state.new_info
            &&& m.poll_step().0.state.split_cache == m.state.split_cache
            &&& m.poll_step().0.state.change == (if e is OurMerge {
                PrefixChange::Merging
            } else {
                m.state.change
            })
            &&& forall|digest: Digest256| #[trigger]
                m.poll_step().0.state.merging.contains(digest) <==> m.state.merging.contains(digest)
                    || (e is OurMerge && digest == m.state.new_info.hash) || e
                    == EventModel::NeighbourMerge(digest)
        }),
{
}

/// After a change of our prefix we vote again for exactly those events that we had voted for and that
/// were not handled, those that had to wait, and merges of other sections that are not complete.
pub proof fn repeated_events(m: ChainModel, e: EventModel)
    requires
        m.valid(),
    ensures
        m.events_to_repeat().contains(e) <==> {
            ||| m.accumulator.dom().contains(e) && m.accumulator[e].dom().contains(m.our_id)
            ||| m.event_cache.contains(e)
            ||| exists|digest: Digest256| #[trigger]
                m.state.merging.contains(digest) && e == EventModel::NeighbourMerge(digest)
        },
{
    if m.accumulator.dom().contains(e) {
        assert(!m.completed.contains(e));
    }
}

/// A quorum is more than half of the members.
pub proof fn quorum_is_majority(info: SectionModel, proofs: ProofMap)
    ensures
        info.quorum(proofs) <==> majority(info.members, proofs),
{
}

/// Any two quorums of a section have a member in common, so that no two contradictory events can be
/// agreed on without somebody who has signed both.
pub proof fn quorums_overlap(info: SectionModel, a: ProofMap, b: ProofMap)
    requires
        info.members.finite(),
        info.quorum(a),
        info.quorum(b),
    ensures
        exists|id: PublicId| #[trigger]
            info.members.contains(id) && a.dom().contains(id) && b.dom().contains(id),
{
    let x = info.members.intersect(a.dom());
    let y = info.members.intersect(b.dom());
    if x.disjoint(y) {
        vstd::set_lib::lemma_set_disjoint_lens(x, y);
        vstd::set_lib::lemma_len_subset(x.union(y), info.members);
    } else {
        let id = choose|id: PublicId| x.contains(id) && y.contains(id);
        assert(info.members.contains(id) && a.dom().contains(id) && b.dom().contains(id));
    }
}

/// The place of an event's kind: new and lost members come first, then candidates, then merges, then
/// sections and what vouches for them.
pub open spec fn is_earlier_kind(a: EventModel, b: EventModel) -> bool {
    ||| a is AddElder && b is RemoveElder
    ||| a is RemoveElder && b is Online
    ||| a is Online && b is Offline
    ||| a is Offline && b is ExpectCandidate
    ||| a is ExpectCandidate && b is PurgeCandidate
    ||| a is PurgeCandidate && b is OurMerge
    ||| a is OurMerge && b is NeighbourMerge
    ||| a is NeighbourMerge && b is SectionInfo
    ||| a is SectionInfo && b is ProvingSections
}

/// The events are ordered by their kinds first.
pub proof fn events_are_ordered_by_kind(a: EventModel, b: EventModel)
    requires
        is_earlier_kind(a, b),
    ensures
        key_less::<NetworkEvent>(a, b),
{
    let (x, y) = (NetworkEvent::code(a), NetworkEvent::code(b));
    assert(x[0] == a.tag() && y[0] == b.tag());
    assert(lex_less_at(x, y, 0));
}

} // verus!
