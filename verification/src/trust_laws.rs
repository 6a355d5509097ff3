//! What holds of the sections that vouch for each other.

use crate::chain_model::{updated_by, ChainModel};
use crate::error::RoutingError;
use crate::event_laws::due_event_is_waiting;
use crate::id::PublicId;
use crate::message::MessageModel;
use crate::network_event::EventModel;
use crate::order::{key_less, lex_asymmetric, Checked, Coded};
use crate::ordered::{sorted, sorted_props};
use crate::prefix::Prefix;
use crate::proof_set::{Proof, ProofMap};
use crate::section_info::{NeighbourModel, ProvingModel, SectionModel};
use crate::section_laws::{
    cache_fits, finalising_keeps_history, history_push, is_next, own_history, rising, unbroken,
    valid_own_section_is_next,
};
use crate::seqs::{
    find_first, find_first_at, find_first_least, find_first_props, find_last, find_last_props,
};
use crate::shared_state::{
    infos_from_keeps_last, infos_from_part, newer_links, older_links, Confirmed, StateModel,
};
use crate::xor_name::{common_len, XorName};
use vstd::prelude::*;

verus! {

/// The section of `link` vouches for `known`: it is the direct successor, or a quorum of it has
/// signed.
pub open spec fn link_holds(known: SectionModel, link: ProvingModel) -> bool {
    match link.sigs {
        None => link.sec_info.follows(known),
        Some(sigs) => link.sec_info.quorum(sigs),
    }
}

/// The section that the link at position `i` has to vouch for.
pub open spec fn before_link(start: SectionModel, links: Seq<ProvingModel>, i: int) -> SectionModel {
    if i == 0 {
        start
    } else {
        links[i - 1].sec_info
    }
}

/// Each section vouches for the one before it, and the first one for `start`.
pub open spec fn links_hold(start: SectionModel, links: Seq<ProvingModel>) -> bool {
    forall|i: int|
        0 <= i < links.len() ==> link_holds(before_link(start, links, i), #[trigger] links[i])
}

/// Where the sections lead to.
pub open spec fn end_of(start: SectionModel, links: Seq<ProvingModel>) -> SectionModel {
    before_link(start, links, links.len() as int)
}

/// A quorum of the version of our section that is noted for the neighbour has signed it, unless that
/// version was forgotten.
pub open spec fn fits(infos: Seq<Confirmed>, n: NeighbourModel) -> bool {
    &&& n.our_version <= infos.last().0.version
    &&& forall|i: int|
        0 <= i < infos.len() && (#[trigger] infos[i]).0.version == n.our_version
            ==> infos[i].0.quorum(n.proofs)
}

/// This holds of all neighbours.
pub open spec fn all_fit(m: ChainModel) -> bool {
    forall|p: Prefix| #[trigger]
        m.neighbours.dom().contains(p) ==> fits(m.state.our_infos, m.neighbours[p])
}

/// Links that continue other ones.
proof fn links_join(start: SectionModel, a: Seq<ProvingModel>, b: Seq<ProvingModel>)
    requires
        links_hold(start, a),
        links_hold(end_of(start, a), b),
    ensures
        links_hold(start, a + b),
        end_of(start, a + b) == end_of(end_of(start, a), b),
{
    let s = a + b;
    assert forall|i: int| 0 <= i < s.len() implies link_holds(
        before_link(start, s, i),
        #[trigger] s[i],
    ) by {
        if i < a.len() {
            assert(s[i] == a[i]);
            assert(before_link(start, s, i) == before_link(start, a, i));
        } else {
            let k = i - a.len();
            assert(s[i] == b[k]);
            assert(before_link(start, s, i) == before_link(end_of(start, a), b, k));
        }
    }
}

/// The lesser of two numbers.
spec fn least(a: int, b: int) -> int {
    if a <= b {
        a
    } else {
        b
    }
}

/// The newer descriptions are those behind the one with the version that is started from.
proof fn newer_links_range(infos: Seq<Confirmed>, n: int, a: int, b: int, from: u64)
    requires
        rising(infos),
        0 <= n <= infos.len(),
        -1 <= a <= b < infos.len(),
        0 <= b,
        a >= 0 ==> from == infos[a].0.version,
        a == -1 ==> from < infos[0].0.version,
    ensures
        least(n - 1, b) >= a ==> newer_links(infos.take(n), from, infos[b].0.version) == Seq::new(
            (least(n - 1, b) - a) as nat,
            |k: int| ProvingModel { sec_info: infos[a + 1 + k].0, sigs: None },
        ),
        least(n - 1, b) < a ==> newer_links(infos.take(n), from, infos[b].0.version) == Seq::<
            ProvingModel,
        >::empty(),
    decreases n,
{
    let to = infos[b].0.version;
    let f = |k: int| ProvingModel { sec_info: infos[a + 1 + k].0, sigs: None };
    if n > 0 {
        newer_links_range(infos, n - 1, a, b, from);
        let t = infos.take(n);
        let v = infos[n - 1].0.version;
        assert(t.drop_last() =~= infos.take(n - 1));
        assert(t.last() == infos[n - 1]);
        assert((from < v) == (a < n - 1)) by {
            if a == -1 {
                assert(n - 1 > 0 ==> infos[0].0.version < infos[n - 1].0.version);
            } else {
                assert(a < n - 1 ==> infos[a].0.version < infos[n - 1].0.version);
                assert(n - 1 < a ==> infos[n - 1].0.version < infos[a].0.version);
            }
        }
        assert((v <= to) == (n - 1 <= b)) by {
            assert(n - 1 < b ==> infos[n - 1].0.version < infos[b].0.version);
            assert(b < n - 1 ==> infos[b].0.version < infos[n - 1].0.version);
        }
        if least(n - 1, b) >= a {
            assert(newer_links(t, from, to) =~= Seq::new((least(n - 1, b) - a) as nat, f));
        }
    } else {
        assert(newer_links(infos.take(0), from, to) =~= Seq::<ProvingModel>::empty());
        if a == -1 {
            assert(Seq::new(0, f) =~= Seq::<ProvingModel>::empty());
        }
    }
}

/// The older descriptions are those before the one with the version that is started from.
proof fn older_links_range(infos: Seq<Confirmed>, n: int, a: int, b: int)
    requires
        rising(infos),
        0 <= n <= infos.len(),
        0 <= b <= a < infos.len(),
    ensures
        least(n - 1, a) >= b ==> older_links(
            infos.take(n),
            infos[a].0.version,
            infos[b].0.version,
        ) == Seq::new(
            (least(n - 1, a) - b) as nat,
            |k: int|
                ProvingModel {
                    sec_info: infos[least(n - 1, a) - 1 - k].0,
                    sigs: Some(infos[least(n - 1, a) - k].1),
                },
        ),
        least(n - 1, a) < b ==> older_links(
            infos.take(n),
            infos[a].0.version,
            infos[b].0.version,
        ) == Seq::<ProvingModel>::empty(),
    decreases n,
{
    let t = infos.take(n);
    let (from, to) = (infos[a].0.version, infos[b].0.version);
    let c = least(n - 1, a);
    let g = |k: int| ProvingModel { sec_info: infos[c - 1 - k].0, sigs: Some(infos[c - k].1) };
    if n >= 2 {
        older_links_range(infos, n - 1, a, b);
        assert(t.drop_last() =~= infos.take(n - 1));
        assert(t.last() == infos[n - 1] && t[n - 2] == infos[n - 2]);
        assert((to <= infos[n - 2].0.version) == (b <= n - 2)) by {
            assert(n - 2 < b ==> infos[n - 2].0.version < infos[b].0.version);
            assert(b < n - 2 ==> infos[b].0.version < infos[n - 2].0.version);
        }
        assert((infos[n - 1].0.version <= from) == (n - 1 <= a)) by {
            assert(n - 1 < a ==> infos[n - 1].0.version < infos[a].0.version);
            assert(a < n - 1 ==> infos[a].0.version < infos[n - 1].0.version);
        }
        if c >= b {
            assert(older_links(t, from, to) =~= Seq::new((c - b) as nat, g));
        }
    } else {
        assert(older_links(t, from, to) =~= Seq::<ProvingModel>::empty());
        if c >= b {
            assert(Seq::new((c - b) as nat, g) =~= Seq::<ProvingModel>::empty());
        }
    }
}

/// `info` is the description at position `a` of our section, or where `a` is -1 an older one that
/// the first of them follows.
pub open spec fn stands_at(infos: Seq<Confirmed>, info: SectionModel, a: int) -> bool {
    if a == -1 {
        infos[0].0.follows(info) && info.version < infos[0].0.version
    } else {
        0 <= a < infos.len() && infos[a].0 == info
    }
}

/// The links to a newer version of our section hold.
proof fn newer_links_hold(infos: Seq<Confirmed>, info: SectionModel, a: int, b: int)
    requires
        unbroken(infos),
        rising(infos),
        stands_at(infos, info, a),
        0 <= b < infos.len(),
        a <= b,
    ensures
        links_hold(info, newer_links(infos, info.version, infos[b].0.version)),
        end_of(info, newer_links(infos, info.version, infos[b].0.version)) == infos[b].0,
{
    let links = newer_links(infos, info.version, infos[b].0.version);
    assert(infos.take(infos.len() as int) =~= infos);
    newer_links_range(infos, infos.len() as int, a, b, info.version);
    assert(links.len() == b - a);
    assert forall|i: int| 0 <= i < links.len() implies link_holds(
        before_link(info, links, i),
        #[trigger] links[i],
    ) by {
        let j = a + 1 + i;
        assert(links[i].sec_info == infos[j].0);
        if j > 0 {
            assert(infos[j].0.follows(infos[j - 1].0));
        }
    }
}

/// The links to an older version of our section hold.
proof fn older_links_hold(infos: Seq<Confirmed>, a: int, b: int)
    requires
        unbroken(infos),
        rising(infos),
        0 <= b <= a < infos.len(),
    ensures
        links_hold(infos[a].0, older_links(infos, infos[a].0.version, infos[b].0.version)),
        end_of(infos[a].0, older_links(infos, infos[a].0.version, infos[b].0.version))
            == infos[b].0,
{
    let links = older_links(infos, infos[a].0.version, infos[b].0.version);
    assert(infos.take(infos.len() as int) =~= infos);
    older_links_range(infos, infos.len() as int, a, b);
    assert(links.len() == a - b);
    assert forall|i: int| 0 <= i < links.len() implies link_holds(
        before_link(infos[a].0, links, i),
        #[trigger] links[i],
    ) by {
        let j = a - i;
        assert(infos[j - 1].0.quorum(infos[j].1));
    }
}

/// The sections between two versions of our section vouch for each other.
pub proof fn own_links_hold(m: ChainModel, info: SectionModel, a: int, b: int)
    requires
        own_history(m),
        stands_at(m.state.our_infos, info, a),
        0 <= b < m.state.our_infos.len(),
    ensures
        links_hold(info, m.state.links(info.version, m.state.our_infos[b].0.version)),
        end_of(info, m.state.links(info.version, m.state.our_infos[b].0.version))
            == m.state.our_infos[b].0,
{
    let infos = m.state.our_infos;
    let from = info.version;
    let to = infos[b].0.version;
    if a <= b {
        newer_links_hold(infos, info, a, b);
        assert(from <= to) by {
            if a == -1 {
                assert(b > 0 ==> infos[0].0.version < infos[b].0.version);
            } else {
                assert(a < b ==> infos[a].0.version < infos[b].0.version);
            }
        }
    } else {
        older_links_hold(infos, a, b);
        assert(infos[b].0.version < infos[a].0.version);
    }
}

/// The next hop towards `dst` knows the description at position `b` of our section.
pub open spec fn next_hop_knows(m: ChainModel, dst: XorName, b: int) -> bool {
    &&& 0 <= b < m.state.our_infos.len()
    &&& m.state.our_infos[b].0.version == m.next_hop_version(dst)
}

/// The way from a version of our section to the next hop and on to our latest version holds.
proof fn way_on_holds(m: ChainModel, info: SectionModel, a: int, dst: XorName, b: int)
    requires
        m.state.our_infos.len() > 0,
        own_history(m),
        stands_at(m.state.our_infos, info, a),
        m.our_prefix().covers(dst) || next_hop_knows(m, dst, b),
    ensures
        links_hold(info, m.way_on(info.version, dst)),
        end_of(info, m.way_on(info.version, dst)) == m.our_info(),
{
    let infos = m.state.our_infos;
    let last = infos.len() - 1;
    if m.our_prefix().covers(dst) {
        own_links_hold(m, info, a, last);
    } else {
        let to = m.next_hop_version(dst);
        own_links_hold(m, info, a, b);
        own_links_hold(m, infos[b].0, b, last);
        links_join(info, m.state.links(info.version, to), m.state.links(to, m.our_info().version));
    }
}

/// The sections that vouch for `info` form a chain: the first one vouches for `info`, each further
/// one for the one before it, and the last one is our latest one.
///
/// The history of our section has to be in order, and the neighbours have to be signed by what is
/// noted for them. If `info` is of our own section it has to be one of our descriptions, or the one
/// before them, and what the next hop knows has to be one of our descriptions too.
pub proof fn proving_sections_lead_to_us(
    m: ChainModel,
    info: SectionModel,
    a: int,
    dst: XorName,
    b: int,
)
    requires
        m.valid(),
        own_history(m),
        all_fit(m),
        info.prefix.covers(m.our_name()) ==> stands_at(m.state.our_infos, info, a),
        m.our_prefix().covers(dst) || next_hop_knows(m, dst, b),
    ensures
        m.proving_sections(info, dst) matches Ok(sections) ==> links_hold(info, sections) && end_of(
            info,
            sections,
        ) == m.our_info(),
{
    let infos = m.state.our_infos;
    if info.prefix.covers(m.our_name()) {
        way_on_holds(m, info, a, dst, b);
        let way = m.way_on(info.version, dst);
        assert(Seq::<ProvingModel>::empty() + way =~= way);
    } else if m.way_home(info) is Ok {
        let head = m.way_home(info)->Ok_0;
        let f = |p: Prefix| ChainModel::vouches(m.neighbours[p].sec_info, info);
        find_first_props(m.keys(), f);
        let p = m.vouching_neighbour(info)->0;
        assert(m.keys().to_set().contains(p));
        let n = m.neighbours[p];
        assert(fits(infos, n));
        let g = |x: Confirmed| x.0.version == n.our_version;
        find_first_props(infos, g);
        let x = m.state.info_with_version(n.our_version)->0;
        let i = choose|i: int| 0 <= i < infos.len() && infos[i] == x;
        let signer = infos[i].0;
        assert(signer.quorum(n.proofs));
        assert(links_hold(info, head)) by {
            assert forall|k: int| 0 <= k < head.len() implies link_holds(
                before_link(info, head, k),
                #[trigger] head[k],
            ) by {}
        }
        assert(end_of(info, head) == signer);
        way_on_holds(m, signer, i, dst, b);
        links_join(info, head, m.way_on(signer.version, dst));
    }
}

/// What is left of a message is the message with the first of its proving sections, and its last hop
/// is trusted.
proof fn trusted_part_props(m: ChainModel, msg: MessageModel)
    ensures
        m.trusted_part(msg).0.src == msg.src,
        m.trusted_part(msg).0.dst == msg.dst,
        m.trusted_part(msg).0.content == msg.content,
        m.trusted_part(msg).0.src_section == msg.src_section,
        m.trusted_part(msg).0.proving_sections.is_prefix_of(msg.proving_sections),
        m.trusted_part(msg).1 ==> (m.trusted_part(msg).0.last_hop() matches Some(hop) ==> m.trusts(
            hop,
            false,
        )),
    decreases msg.proving_sections.len(),
{
    let s = msg.proving_sections;
    if msg.last_hop() matches Some(hop) && !m.trusts(hop, false) && s.len() > 0 {
        let shorter = MessageModel { proving_sections: s.drop_last(), ..msg };
        trusted_part_props(m, shorter);
        let t = m.trusted_part(msg).0.proving_sections;
        assert(t =~= s.subrange(0, t.len() as int)) by {
            assert(t == s.drop_last().subrange(0, t.len() as int));
        }
    } else {
        assert(s.subrange(0, s.len() as int) =~= s);
    }
}

/// Extending a message changes neither what it says nor where it comes from and goes to, and only
/// drops proving sections from its end before it appends other ones.
pub proof fn extending_keeps_message(m: ChainModel, msg: MessageModel)
    ensures
        m.extend_step(msg).0.src == msg.src,
        m.extend_step(msg).0.dst == msg.dst,
        m.extend_step(msg).0.content == msg.content,
        m.extend_step(msg).0.src_section == msg.src_section,
        m.trusted_part(msg).0.proving_sections.is_prefix_of(msg.proving_sections),
        m.trusted_part(msg).0.proving_sections.is_prefix_of(m.extend_step(msg).0.proving_sections),
{
    trusted_part_props(m, msg);
    let a = m.trusted_part(msg).0.proving_sections;
    let b = m.extend_step(msg).0.proving_sections;
    assert(a =~= b.subrange(0, a.len() as int));
}

/// A message that none of our known sections vouches for is refused.
pub proof fn unknown_hops_are_refused(m: ChainModel, msg: MessageModel)
    requires
        msg.src_section matches Some(src) && !m.trusts(src, false),
        forall|i: int|
            0 <= i < msg.proving_sections.len() ==> !m.trusts(
                (#[trigger] msg.proving_sections[i]).sec_info,
                false,
            ),
    ensures
        m.extend_step(msg).1 == Err::<(), RoutingError>(RoutingError::UnknownPrevHop),
    decreases msg.proving_sections.len(),
{
    let s = msg.proving_sections;
    if s.len() > 0 {
        let shorter = MessageModel { proving_sections: s.drop_last(), ..msg };
        assert(!m.trusts(s[s.len() - 1].sec_info, false));
        unknown_hops_are_refused(m, shorter);
        assert(m.trusted_part(msg) == m.trusted_part(shorter));
    }
}

/// A message that was extended ends with our latest section, so that the next hop can go on from it.
///
/// What has to hold is the same as for the proving sections of the last hop that is trusted.
pub proof fn extended_message_ends_with_us(m: ChainModel, msg: MessageModel, a: int, b: int)
    requires
        m.valid(),
        own_history(m),
        all_fit(m),
        m.trusted_part(msg).0.last_hop() matches Some(hop) && (hop.prefix.covers(m.our_name())
            ==> stands_at(m.state.our_infos, hop, a)),
        m.our_prefix().covers(msg.dst.xor_name()) || next_hop_knows(m, msg.dst.xor_name(), b),
        m.extend_step(msg).1 is Ok,
    ensures
        m.extend_step(msg).0.last_hop() == Some(m.our_info()),
{
    trusted_part_props(m, msg);
    let part = m.trusted_part(msg).0;
    let hop = part.last_hop()->0;
    let dst = msg.dst.xor_name();
    proving_sections_lead_to_us(m, hop, a, dst, b);
    let sections = m.proving_sections(hop, dst)->Ok_0;
    let all = part.proving_sections + sections;
    if sections.len() > 0 {
        assert(all.last() == sections.last());
    } else {
        assert(all =~= part.proving_sections);
    }
}

/// More signatures are a quorum where fewer are one.
proof fn quorum_grows(info: SectionModel, proofs: ProofMap, more: ProofMap)
    requires
        info.valid(),
        info.quorum(proofs),
        proofs.dom().subset_of(more.dom()),
    ensures
        info.quorum(more),
{
    let q = sorted::<PublicId>(info.members);
    assert(q.to_set() == info.members);
    let a = info.members.intersect(proofs.dom());
    let b = info.members.intersect(more.dom());
    assert(a.subset_of(b));
    vstd::set_lib::lemma_len_intersect(info.members, more.dom());
    vstd::set_lib::lemma_len_subset(a, b);
}

/// Moving on to a newer version of our section keeps the neighbour signed.
proof fn updating_keeps_fit(infos: Seq<Confirmed>, n: NeighbourModel)
    requires
        rising(infos),
        fits(infos, n),
    ensures
        fits(infos, updated_by(infos, n)),
{
    let f = |x: Confirmed| n.can_update(x.0);
    find_last_props(infos, f);
    if let Some(x) = find_last(infos, f) {
        let i = choose|i: int| 0 <= i < infos.len() && infos[i] == x;
        let last = infos.len() - 1;
        assert(i < last ==> infos[i].0.version < infos[last].0.version);
        assert forall|j: int| 0 <= j < infos.len() && (#[trigger] infos[j]).0.version
            == x.0.version implies infos[j].0.quorum(n.proofs) by {
            assert(i < j ==> infos[i].0.version < infos[j].0.version);
            assert(j < i ==> infos[j].0.version < infos[i].0.version);
        }
    }
}

proof fn cleaning_keeps_fit(m: ChainModel, for_pfx: Option<Prefix>)
    requires
        rising(m.state.our_infos),
        all_fit(m),
    ensures
        all_fit(m.cleaned(for_pfx)),
{
    let c = m.cleaned(for_pfx);
    assert forall|p: Prefix| #[trigger] c.neighbours.dom().contains(p) implies fits(
        c.state.our_infos,
        c.neighbours[p],
    ) by {
        assert(m.neighbours.dom().contains(p));
        updating_keeps_fit(m.state.our_infos, m.neighbours[p]);
    }
}

proof fn section_keeps_fit(m: ChainModel, info: SectionModel, proofs: ProofMap)
    requires
        m.state.our_infos.len() > 0,
        unbroken(m.state.our_infos),
        rising(m.state.our_infos),
        all_fit(m),
        info.prefix.covers(m.our_name()) ==> is_next(m, (info, proofs)),
    ensures
        all_fit(m.single_section_step(info, proofs).0),
        unbroken(m.single_section_step(info, proofs).0.state.our_infos),
        rising(m.single_section_step(info, proofs).0.state.our_infos),
{
    let infos = m.state.our_infos;
    if info.prefix.covers(m.our_name()) {
        history_push(infos, (info, proofs));
        let more = infos.push((info, proofs));
        let next = ChainModel {
            state: StateModel { our_infos: more, ..m.state },
            is_member: m.is_member || info.members.contains(m.our_id),
            ..m
        };
        assert forall|p: Prefix| #[trigger] next.neighbours.dom().contains(p) implies fits(
            more,
            next.neighbours[p],
        ) by {
            assert(m.neighbours.dom().contains(p));
            let n = m.neighbours[p];
            assert(fits(infos, n));
            assert forall|i: int| 0 <= i < more.len() && (#[trigger] more[i]).0.version
                == n.our_version implies more[i].0.quorum(n.proofs) by {
                if i < infos.len() {
                    assert(more[i] == infos[i]);
                }
            }
        }
        cleaning_keeps_fit(next, None);
    } else if m.signing_info(proofs) is Some {
        let f = |x: Confirmed| x.0.quorum(proofs);
        find_last_props(infos, f);
        let signer = m.signing_info(proofs)->0;
        let i = choose|i: int| 0 <= i < infos.len() && infos[i] == signer;
        let last = infos.len() - 1;
        assert(i < last ==> infos[i].0.version < infos[last].0.version);
        let n = NeighbourModel { sec_info: info, proofs, our_version: signer.0.version };
        assert forall|j: int| 0 <= j < infos.len() && (#[trigger] infos[j]).0.version
            == n.our_version implies infos[j].0.quorum(n.proofs) by {
            assert(i < j ==> infos[i].0.version < infos[j].0.version);
            assert(j < i ==> infos[j].0.version < infos[i].0.version);
        }
        assert(fits(infos, n));
        let m1 = m.neighbours_with(info.prefix, n);
        assert forall|p: Prefix| #[trigger] m1.neighbours.dom().contains(p) implies fits(
            infos,
            m1.neighbours[p],
        ) by {
            if p != info.prefix {
                assert(m.neighbours.dom().contains(p));
            }
        }
        let twin = info.prefix.twin();
        let parent = info.prefix.parent();
        let m2 = if m1.other_half_needed(info) {
            m1.neighbours_with(twin, m1.neighbours[parent])
        } else {
            m1
        };
        assert forall|p: Prefix| #[trigger] m2.neighbours.dom().contains(p) implies fits(
            infos,
            m2.neighbours[p],
        ) by {
            if m1.other_half_needed(info) && p == twin {
                assert(m1.neighbours.dom().contains(parent));
            } else {
                assert(m1.neighbours.dom().contains(p));
            }
        }
        cleaning_keeps_fit(m2, Some(info.prefix));
    }
}

/// What is known of a neighbour stays signed by a quorum of the version of our section that is noted
/// for it, whatever takes effect.
pub proof fn neighbours_stay_signed(m: ChainModel)
    requires
        m.valid(),
        own_history(m),
        all_fit(m),
        m.due() matches Some(EventModel::SectionInfo(info)) ==> cache_fits(m, info),
    ensures
        all_fit(m.poll_step().0),
{
    due_event_is_waiting(m);
    if let Some(e) = m.due() {
        let done = m.with_completed(e);
        let proofs = m.accumulator[e];
        assert(all_fit(done));
        if let EventModel::SectionInfo(info) = e {
            assert(m.valid_section(info, proofs));
            if info.prefix.covers(m.our_name()) {
                valid_own_section_is_next(m, info, proofs);
            }
            if info.prefix.extends(done.our_prefix()) {
                if let Some(c) = done.state.split_cache {
                    let taken = ChainModel {
                        state: StateModel { split_cache: None, ..done.state },
                        ..done
                    };
                    assert(all_fit(taken));
                    if c.0.prefix.covers(m.our_name()) {
                        section_keeps_fit(taken, c.0, c.1);
                        section_keeps_fit(taken.single_section_step(c.0, c.1).0, info, proofs);
                    } else {
                        section_keeps_fit(taken, info, proofs);
                        section_keeps_fit(taken.single_section_step(info, proofs).0, c.0, c.1);
                    }
                }
            } else {
                section_keeps_fit(done, info, proofs);
            }
        }
    }
}

/// Votes keep the neighbours signed too.
pub proof fn votes_keep_signed(m: ChainModel, e: EventModel, proof: Proof)
    requires
        m.valid(),
        rising(m.state.our_infos),
        all_fit(m),
    ensures
        all_fit(m.vote_step(e, proof)),
{
    if m.can_skip(e) {
        let info = e->SectionInfo_0;
        let added = m.with_proof_added(info, proof);
        let infos = m.state.our_infos;
        assert forall|p: Prefix| #[trigger] added.neighbours.dom().contains(p) implies fits(
            infos,
            added.neighbours[p],
        ) by {
            let n = m.neighbours[p];
            assert(fits(infos, n));
            let more = added.neighbours[p].proofs;
            assert forall|i: int| 0 <= i < infos.len() && (#[trigger] infos[i]).0.version
                == n.our_version implies infos[i].0.quorum(more) by {
                quorum_grows(infos[i].0, n.proofs, more);
            }
        }
        cleaning_keeps_fit(added, Some(info.prefix));
    }
}

/// The end of a change of our prefix keeps the neighbours signed too.
pub proof fn finalising_keeps_signed(m: ChainModel)
    requires
        m.valid(),
        own_history(m),
        all_fit(m),
    ensures
        all_fit(m.finalise_step()),
{
    let infos = m.state.our_infos;
    let rest = m.state.infos_from(m.least_known());
    finalising_keeps_history(m);
    infos_from_keeps_last(infos, m.least_known());
    let trimmed = ChainModel { state: StateModel { our_infos: rest, ..m.state }, ..m };
    assert forall|p: Prefix| #[trigger] trimmed.neighbours.dom().contains(p) implies fits(
        rest,
        trimmed.neighbours[p],
    ) by {
        let n = m.neighbours[p];
        assert(fits(infos, n));
        assert forall|i: int| 0 <= i < rest.len() && (#[trigger] rest[i]).0.version
            == n.our_version implies rest[i].0.quorum(n.proofs) by {
            infos_from_part(infos, m.least_known(), i);
            let j = choose|j: int| 0 <= j < infos.len() && infos[j] == rest[i];
            assert(infos[j].0.version == n.our_version);
        }
    }
    cleaning_keeps_fit(trimmed, None);
}

/// A section that we know is not new to us.
pub proof fn known_section_is_not_new(m: ChainModel, info: SectionModel)
    requires
        if info.prefix.covers(m.our_name()) {
            exists|i: int|
                0 <= i < m.state.our_infos.len() && (#[trigger] m.state.our_infos[i]).0 == info
        } else {
            exists|p: Prefix| #[trigger]
                m.neighbours.dom().contains(p) && m.neighbours[p].sec_info == info
        },
    ensures
        !m.finds_new(info),
        m.trusts(info, false),
        m.trusts(info, true),
{
}

/// A section that we have signed is trusted where that is asked for, and is not new to us.
pub proof fn signed_section_is_trusted(m: ChainModel, info: SectionModel)
    requires
        m.signed(EventModel::SectionInfo(info)),
    ensures
        m.trusts(info, true),
        !m.finds_new(info),
{
}

/// Whatever is trusted without regard to what we have signed is trusted with regard to it too.
pub proof fn signed_sections_only_add_trust(m: ChainModel, info: SectionModel)
    ensures
        m.trusts(info, false) ==> m.trusts(info, true),
{
}

/// `p` agrees with `dst` for longer than our prefix does.
pub open spec fn is_closer(m: ChainModel, p: Prefix, dst: XorName) -> bool {
    common_len(p.bits(), dst.bits()) > common_len(m.our_prefix().bits(), dst.bits())
}

/// What the next hop is assumed to know is what was noted for it, if it is the first one that is
/// closer to the destination.
pub proof fn noted_knowledge_is_used(m: ChainModel, p: Prefix, version: u64, dst: XorName)
    requires
        m.valid(),
        p.inv(),
        is_closer(m, p, dst),
        forall|q: Prefix| #[trigger]
            m.their_knowledge.dom().contains(q) && q != p && is_closer(m, q, dst)
                ==> key_less::<Prefix>(p, q),
    ensures
        (ChainModel {
            their_knowledge: m.their_knowledge.insert(p, version),
            ..m
        }).next_hop_version(dst) == version,
{
    let next = ChainModel { their_knowledge: m.their_knowledge.insert(p, version), ..m };
    let old_keys = sorted::<Prefix>(m.their_knowledge.dom());
    let dom = next.their_knowledge.dom();
    assert(dom =~= m.their_knowledge.dom().insert(p));
    assert(m.their_knowledge.dom() == old_keys.to_set());
    assert forall|q: Prefix| #[trigger] dom.contains(q) implies Prefix::valid(q) by {
        if q != p {
            assert(old_keys.to_set().contains(q));
            let i = choose|i: int| 0 <= i < old_keys.len() && old_keys[i] == q;
            assert(Prefix::valid(old_keys[i]));
        }
    }
    sorted_props::<Prefix>(dom);
    let keys = sorted::<Prefix>(dom);
    assert(keys.to_set().contains(p));
    let i = choose|i: int| 0 <= i < keys.len() && keys[i] == p;
    let f = |q: Prefix|
        common_len(q.bits(), dst.bits()) > common_len(next.our_prefix().bits(), dst.bits());
    assert forall|j: int| 0 <= j < i implies !f(keys[j]) by {
        let q = keys[j];
        assert(keys.contains(q));
        assert(dom.contains(q));
        assert(key_less::<Prefix>(keys[j], keys[i]));
        lex_asymmetric(Prefix::code(q), Prefix::code(p));
        if f(q) {
            assert(is_closer(m, q, dst));
            assert(m.their_knowledge.dom().contains(q));
        }
    }
    find_first_at(keys, f, i);
}

/// `known` is the section `info` or directly follows it.
pub open spec fn attests(known: SectionModel, info: SectionModel) -> bool {
    known == info || known.prev_hash.contains(info.hash)
}

/// We have signed the section but it did not take effect yet.
pub open spec fn has_signed(m: ChainModel, known: SectionModel) -> bool {
    m.accumulator.dom().contains(EventModel::SectionInfo(known))
        && m.accumulator[EventModel::SectionInfo(known)].dom().contains(m.our_id)
}

/// A section that covers our name is trusted exactly if one of our own descriptions attests it, any
/// other one exactly if one of our neighbours does. On request those that we have signed attest
/// sections too.
pub proof fn trusted_sections_are_attested(m: ChainModel, info: SectionModel)
    ensures
        info.prefix.covers(m.our_name()) ==> (m.trusts(info, false) <==> exists|i: int|
            0 <= i < m.state.our_infos.len() && attests((#[trigger] m.state.our_infos[i]).0, info)),
        !info.prefix.covers(m.our_name()) ==> (m.trusts(info, false) <==> exists|p: Prefix|
            #[trigger]
            m.neighbours.dom().contains(p) && attests(m.neighbours[p].sec_info, info)),
        m.trusts(info, true) <==> m.trusts(info, false) || exists|known: SectionModel| #[trigger]
            has_signed(m, known) && attests(known, info),
{
    if m.signed_vouches(info) {
        let known = choose|known: SectionModel| #[trigger]
            m.signed(EventModel::SectionInfo(known)) && ChainModel::vouches(known, info);
        assert(has_signed(m, known) && attests(known, info));
    }
    if exists|known: SectionModel| #[trigger] has_signed(m, known) && attests(known, info) {
        let known = choose|known: SectionModel| #[trigger]
            has_signed(m, known) && attests(known, info);
        assert(m.signed(EventModel::SectionInfo(known)) && ChainModel::vouches(known, info));
    }
}

/// A section that a known neighbour directly follows is trusted.
pub proof fn followed_section_is_trusted(m: ChainModel, info: SectionModel, p: Prefix)
    requires
        !info.prefix.covers(m.our_name()),
        m.neighbours.dom().contains(p),
        m.neighbours[p].sec_info.prev_hash.contains(info.hash),
    ensures
        m.trusts(info, false),
        m.trusts(info, true),
{
    trusted_sections_are_attested(m, info);
}

/// A description of our section that one of our descriptions directly follows is trusted.
pub proof fn followed_own_section_is_trusted(m: ChainModel, info: SectionModel, i: int)
    requires
        info.prefix.covers(m.our_name()),
        0 <= i < m.state.our_infos.len(),
        m.state.our_infos[i].0.prev_hash.contains(info.hash),
    ensures
        m.trusts(info, false),
        m.trusts(info, true),
{
    trusted_sections_are_attested(m, info);
}

/// `known` overlaps with `info` and is not older.
pub open spec fn is_as_new(known: SectionModel, info: SectionModel) -> bool {
    info.prefix.compatible(known.prefix) && known.version >= info.version
}

/// A section is new to us exactly if none that we have signed, and none of our own descriptions or of
/// our neighbours, whichever it belongs to, overlaps with it and is not older.
pub proof fn new_sections_are_newer(m: ChainModel, info: SectionModel)
    ensures
        m.finds_new(info) <==> {
            &&& forall|known: SectionModel| #[trigger]
                has_signed(m, known) ==> !is_as_new(known, info)
            &&& info.prefix.covers(m.our_name()) ==> forall|i: int|
                0 <= i < m.state.our_infos.len() ==> !is_as_new(
                    (#[trigger] m.state.our_infos[i]).0,
                    info,
                )
            &&& !info.prefix.covers(m.our_name()) ==> forall|p: Prefix| #[trigger]
                m.neighbours.dom().contains(p) ==> !is_as_new(m.neighbours[p].sec_info, info)
        },
{
    assert(m.signed_outdates(info) <==> exists|known: SectionModel| #[trigger]
        has_signed(m, known) && is_as_new(known, info)) by {
        if m.signed_outdates(info) {
            let known = choose|known: SectionModel| #[trigger]
                m.signed(EventModel::SectionInfo(known)) && ChainModel::outdates(known, info);
            assert(has_signed(m, known) && is_as_new(known, info));
        }
        if exists|known: SectionModel| #[trigger] has_signed(m, known) && is_as_new(known, info) {
            let known = choose|known: SectionModel| #[trigger]
                has_signed(m, known) && is_as_new(known, info);
            assert(m.signed(EventModel::SectionInfo(known)) && ChainModel::outdates(known, info));
        }
    }
}

/// The sections on the way from the description at position `a` of our section to that at position
/// `b`: forwards each as the successor of the one before it, backwards each with the signatures that
/// it gave the one after it.
pub open spec fn steps(infos: Seq<Confirmed>, a: int, b: int) -> Seq<ProvingModel> {
    if a <= b {
        Seq::new(
            (b - a) as nat,
            |i: int| ProvingModel { sec_info: infos[a + 1 + i].0, sigs: None },
        )
    } else {
        Seq::new(
            (a - b) as nat,
            |i: int| ProvingModel { sec_info: infos[a - 1 - i].0, sigs: Some(infos[a - i].1) },
        )
    }
}

proof fn newer_links_are_steps(infos: Seq<Confirmed>, a: int, b: int)
    requires
        rising(infos),
        0 <= a <= b < infos.len(),
    ensures
        newer_links(infos, infos[a].0.version, infos[b].0.version) == steps(infos, a, b),
    decreases infos.len(),
{
    let rest = infos.drop_last();
    let n = infos.len() - 1;
    assert(rising(rest)) by {
        assert forall|i: int, j: int| 0 <= i < j < rest.len() implies (#[trigger] rest[i]).0.version
            < (#[trigger] rest[j]).0.version by {
            assert(infos[i].0.version < infos[j].0.version);
        }
    }
    let (from, to) = (infos[a].0.version, infos[b].0.version);
    if b < n {
        newer_links_are_steps(rest, a, b);
        assert(infos[b].0.version < infos[n].0.version);
        assert(steps(rest, a, b) =~= steps(infos, a, b));
    } else if a < n {
        newer_links_are_steps(rest, a, n - 1);
        assert(newer_links(rest, from, to) == newer_links(rest, from, infos[n - 1].0.version)) by {
            newer_links_bound(rest, from, infos[n - 1].0.version, to);
        }
        assert(infos[a].0.version < infos[n].0.version);
        assert(steps(rest, a, n - 1).push(
            ProvingModel { sec_info: infos[n].0, sigs: None },
        ) =~= steps(infos, a, n));
    } else {
        no_newer_links(rest, from, to);
        assert(steps(infos, a, b) =~= Seq::empty());
    }
}

/// What is newer than all descriptions is no bound.
proof fn newer_links_bound(infos: Seq<Confirmed>, from: u64, to: u64, bound: u64)
    requires
        to <= bound,
        forall|i: int| 0 <= i < infos.len() ==> (#[trigger] infos[i]).0.version <= to,
    ensures
        newer_links(infos, from, bound) == newer_links(infos, from, to),
    decreases infos.len(),
{
    if infos.len() > 0 {
        let rest = infos.drop_last();
        assert forall|i: int| 0 <= i < rest.len() implies (#[trigger] rest[i]).0.version <= to by {
            assert(rest[i] == infos[i]);
        }
        newer_links_bound(rest, from, to, bound);
        assert(infos[infos.len() - 1].0.version <= to);
    }
}

/// Where nothing is newer there are no links to it.
proof fn no_newer_links(infos: Seq<Confirmed>, from: u64, to: u64)
    requires
        forall|i: int| 0 <= i < infos.len() ==> (#[trigger] infos[i]).0.version <= from,
    ensures
        newer_links(infos, from, to) == Seq::<ProvingModel>::empty(),
    decreases infos.len(),
{
    if infos.len() > 0 {
        let rest = infos.drop_last();
        assert forall|i: int| 0 <= i < rest.len() implies (#[trigger] rest[i]).0.version <= from by {
            assert(rest[i] == infos[i]);
        }
        no_newer_links(rest, from, to);
        assert(infos[infos.len() - 1].0.version <= from);
    }
}

proof fn older_links_are_steps(infos: Seq<Confirmed>, a: int, b: int, from: u64, to: u64)
    requires
        rising(infos),
        0 <= b <= a < infos.len(),
        to == infos[b].0.version,
        forall|i: int|
            0 <= i < infos.len() ==> ((#[trigger] infos[i]).0.version <= from <==> i <= a),
    ensures
        older_links(infos, from, to) == steps(infos, a, b),
    decreases infos.len(),
{
    let n = infos.len() - 1;
    if infos.len() < 2 {
        assert(steps(infos, a, b) =~= Seq::empty());
    } else {
        let rest = infos.drop_last();
        assert(rising(rest)) by {
            assert forall|i: int, j: int| 0 <= i < j < rest.len() implies (
            #[trigger] rest[i]).0.version < (#[trigger] rest[j]).0.version by {
                assert(infos[i].0.version < infos[j].0.version);
            }
        }
        let c = if a < n {
            a
        } else {
            n - 1
        };
        assert(infos[n].0.version <= from <==> n <= a);
        if b < n {
            assert forall|i: int| 0 <= i < rest.len() implies ((#[trigger] rest[i]).0.version <= from
                <==> i <= c) by {
                assert(infos[i].0.version <= from <==> i <= a);
            }
            assert(rest[b] == infos[b]);
            older_links_are_steps(rest, c, b, from, to);
            assert(b < n - 1 ==> infos[b].0.version < infos[n - 1].0.version);
            assert(to <= infos[n - 1].0.version);
            if a == n {
                assert(seq![ProvingModel { sec_info: infos[n - 1].0, sigs: Some(infos[n].1) }]
                    + steps(rest, n - 1, b) =~= steps(infos, n, b));
            } else {
                assert(steps(rest, a, b) =~= steps(infos, a, b));
            }
        } else {
            assert(infos[n - 1].0.version < infos[n].0.version);
            no_older_links(rest, from, to);
            assert(steps(infos, a, b) =~= Seq::empty());
        }
    }
}

/// Where everything is older there are no links to it.
proof fn no_older_links(infos: Seq<Confirmed>, from: u64, to: u64)
    requires
        forall|i: int| 0 <= i < infos.len() ==> (#[trigger] infos[i]).0.version < to,
    ensures
        older_links(infos, from, to) == Seq::<ProvingModel>::empty(),
    decreases infos.len(),
{
    if infos.len() >= 2 {
        let rest = infos.drop_last();
        assert forall|i: int| 0 <= i < rest.len() implies (#[trigger] rest[i]).0.version < to by {
            assert(rest[i] == infos[i]);
        }
        no_older_links(rest, from, to);
        assert(infos[infos.len() - 2].0.version < to);
    }
}

/// The sections that lead from one version of our section to another one are exactly those between
/// them, one after the other.
pub proof fn links_are_steps(m: ChainModel, a: int, b: int)
    requires
        rising(m.state.our_infos),
        0 <= a < m.state.our_infos.len(),
        0 <= b < m.state.our_infos.len(),
    ensures
        m.state.links(m.state.our_infos[a].0.version, m.state.our_infos[b].0.version) == steps(
            m.state.our_infos,
            a,
            b,
        ),
{
    let infos = m.state.our_infos;
    if a <= b {
        assert(a < b ==> infos[a].0.version < infos[b].0.version);
        newer_links_are_steps(infos, a, b);
    } else {
        assert(infos[b].0.version < infos[a].0.version);
        assert forall|i: int| 0 <= i < infos.len() implies ((#[trigger] infos[i]).0.version
            <= infos[a].0.version <==> i <= a) by {
            if i < a {
                assert(infos[i].0.version < infos[a].0.version);
            } else if i > a {
                assert(infos[a].0.version < infos[i].0.version);
            }
        }
        older_links_are_steps(infos, a, b, infos[a].0.version, infos[b].0.version);
    }
}

/// The way from the description at position `a` of our section to `dst`: straight to our latest one
/// if that is where `dst` is, else by way of what the next hop knows, at position `b`.
pub open spec fn whole_way(m: ChainModel, a: int, dst: XorName, b: int) -> Seq<ProvingModel> {
    let infos = m.state.our_infos;
    if m.our_prefix().covers(dst) {
        steps(infos, a, infos.len() - 1)
    } else {
        steps(infos, a, b) + steps(infos, b, infos.len() - 1)
    }
}

proof fn way_on_is_whole(m: ChainModel, a: int, dst: XorName, b: int)
    requires
        rising(m.state.our_infos),
        0 <= a < m.state.our_infos.len(),
        m.our_prefix().covers(dst) || next_hop_knows(m, dst, b),
    ensures
        m.way_on(m.state.our_infos[a].0.version, dst) == whole_way(m, a, dst, b),
{
    let n = m.state.our_infos.len() - 1;
    links_are_steps(m, a, n);
    if !m.our_prefix().covers(dst) {
        links_are_steps(m, a, b);
        links_are_steps(m, b, n);
    }
}

/// A description of our own section is vouched for by what leads from it to the next hop and to our
/// latest description, and by nothing else.
pub proof fn own_section_is_vouched_for(m: ChainModel, a: int, dst: XorName, b: int)
    requires
        rising(m.state.our_infos),
        0 <= a < m.state.our_infos.len(),
        m.state.our_infos[a].0.prefix.covers(m.our_name()),
        m.our_prefix().covers(dst) || next_hop_knows(m, dst, b),
    ensures
        m.proving_sections(m.state.our_infos[a].0, dst) == Ok::<Seq<ProvingModel>, RoutingError>(
            whole_way(m, a, dst, b),
        ),
{
    way_on_is_whole(m, a, dst, b);
    assert(Seq::<ProvingModel>::empty() + whole_way(m, a, dst, b) =~= whole_way(m, a, dst, b));
}

/// `p` is the first neighbour that attests `info`.
pub open spec fn first_to_attest(m: ChainModel, info: SectionModel, p: Prefix) -> bool {
    &&& m.neighbours.dom().contains(p)
    &&& attests(m.neighbours[p].sec_info, info)
    &&& forall|q: Prefix| #[trigger]
        m.neighbours.dom().contains(q) && attests(m.neighbours[q].sec_info, info) ==> q == p
            || key_less::<Prefix>(p, q)
}

proof fn vouching_is_first(m: ChainModel, info: SectionModel, p: Prefix)
    requires
        m.valid(),
        first_to_attest(m, info, p),
    ensures
        m.vouching_neighbour(info) == Some(p),
{
    let f = |q: Prefix| ChainModel::vouches(m.neighbours[q].sec_info, info);
    find_first_least::<Prefix>(m.neighbours.dom(), f);
    assert(f(p));
    let x = m.vouching_neighbour(info)->0;
    assert(m.neighbours.dom().contains(x) && f(x));
    if x != p {
        lex_asymmetric(Prefix::code(x), Prefix::code(p));
    }
}

/// A section that a neighbour attests is vouched for: by that neighbour if it is the successor, then
/// by the version of our section that is noted for the neighbour, at position `a`, with the
/// neighbour's signatures, and then by what leads on from there.
pub proof fn neighbour_is_vouched_for(
    m: ChainModel,
    info: SectionModel,
    p: Prefix,
    a: int,
    dst: XorName,
    b: int,
)
    requires
        m.valid(),
        rising(m.state.our_infos),
        !info.prefix.covers(m.our_name()),
        first_to_attest(m, info, p),
        0 <= a < m.state.our_infos.len(),
        m.state.our_infos[a].0.version == m.neighbours[p].our_version,
        m.our_prefix().covers(dst) || next_hop_knows(m, dst, b),
    ensures
        ({
            let n = m.neighbours[p];
            let signer = ProvingModel {
                sec_info: m.state.our_infos[a].0,
                sigs: Some(n.proofs),
            };
            let successor = ProvingModel { sec_info: n.sec_info, sigs: None };
            m.proving_sections(info, dst) == Ok::<Seq<ProvingModel>, RoutingError>(
                (if n.sec_info.prev_hash.contains(info.hash) {
                    seq![successor, signer]
                } else {
                    seq![signer]
                }) + whole_way(m, a, dst, b),
            )
        }),
{
    vouching_is_first(m, info, p);
    let f = |x: Confirmed| x.0.version == m.neighbours[p].our_version;
    assert forall|j: int| 0 <= j < a implies !f(m.state.our_infos[j]) by {
        assert(m.state.our_infos[j].0.version < m.state.our_infos[a].0.version);
    }
    find_first_at(m.state.our_infos, f, a);
    way_on_is_whole(m, a, dst, b);
}

/// A section of others is refused as unknown exactly if no neighbour attests it, and fails otherwise
/// exactly if the version of our section that has signed the neighbour was forgotten. A section that
/// covers our name is never refused.
pub proof fn unknown_sections_are_refused(m: ChainModel, info: SectionModel, dst: XorName)
    requires
        m.valid(),
    ensures
        info.prefix.covers(m.our_name()) ==> m.proving_sections(info, dst) is Ok,
        !info.prefix.covers(m.our_name()) ==> (m.proving_sections(info, dst) == Err::<
            Seq<ProvingModel>,
            RoutingError,
        >(RoutingError::UnknownPrevHop) <==> forall|p: Prefix| #[trigger]
            m.neighbours.dom().contains(p) ==> !attests(m.neighbours[p].sec_info, info)),
        !info.prefix.covers(m.our_name()) ==> forall|p: Prefix| #[trigger]
            first_to_attest(m, info, p) ==> (m.proving_sections(info, dst) == Err::<
                Seq<ProvingModel>,
                RoutingError,
            >(RoutingError::InvalidStateForOperation) <==> forall|i: int|
                0 <= i < m.state.our_infos.len() ==> (#[trigger] m.state.our_infos[i]).0.version
                    != m.neighbours[p].our_version),
        !info.prefix.covers(m.our_name()) ==> (m.proving_sections(info, dst) is Ok
            || m.proving_sections(info, dst) == Err::<Seq<ProvingModel>, RoutingError>(
            RoutingError::UnknownPrevHop,
        ) || m.proving_sections(info, dst) == Err::<Seq<ProvingModel>, RoutingError>(
            RoutingError::InvalidStateForOperation,
        )),
{
    let f = |q: Prefix| ChainModel::vouches(m.neighbours[q].sec_info, info);
    find_first_least::<Prefix>(m.neighbours.dom(), f);
    if m.vouching_neighbour(info) is None {
        assert forall|p: Prefix| #[trigger] m.neighbours.dom().contains(p) implies !attests(
            m.neighbours[p].sec_info,
            info,
        ) by {
            assert(!f(p));
        }
    } else {
        let x = m.vouching_neighbour(info)->0;
        assert(m.neighbours.dom().contains(x) && f(x));
        assert(attests(m.neighbours[x].sec_info, info));
        find_first_props(
            m.state.our_infos,
            |c: Confirmed| c.0.version == m.neighbours[x].our_version,
        );
        if m.state.info_with_version(m.neighbours[x].our_version) is Some {
            let c = m.state.info_with_version(m.neighbours[x].our_version)->0;
            let i = choose|i: int| 0 <= i < m.state.our_infos.len() && m.state.our_infos[i] == c;
            assert(m.state.our_infos[i].0.version == m.neighbours[x].our_version);
        }
    }
    assert forall|p: Prefix| #[trigger] first_to_attest(m, info, p) implies m.vouching_neighbour(info)
        == Some(p) by {
        vouching_is_first(m, info, p);
    }
}

/// The proving sections behind the last one that is trusted are dropped, and only those. If nothing
/// is trusted, all of them are.
pub proof fn untrusted_hops_are_dropped(m: ChainModel, msg: MessageModel)
    ensures
        ({
            let (part, known) = m.trusted_part(msg);
            let n = part.proving_sections.len();
            &&& n <= msg.proving_sections.len()
            &&& part.proving_sections == msg.proving_sections.take(n as int)
            &&& forall|i: int|
                n <= i < msg.proving_sections.len() ==> !m.trusts(
                    (#[trigger] msg.proving_sections[i]).sec_info,
                    false,
                )
            &&& n > 0 ==> known && m.trusts(msg.proving_sections[n - 1].sec_info, false)
            &&& n == 0 ==> (known <==> (msg.src_section matches Some(src) ==> m.trusts(src, false)))
        }),
    decreases msg.proving_sections.len(),
{
    let n = msg.proving_sections.len();
    if n > 0 {
        let shorter = MessageModel { proving_sections: msg.proving_sections.drop_last(), ..msg };
        untrusted_hops_are_dropped(m, shorter);
        let (part, known) = m.trusted_part(msg);
        let k = part.proving_sections.len() as int;
        if m.trusts(msg.proving_sections.last().sec_info, false) {
            assert(msg.proving_sections.take(n as int) =~= msg.proving_sections);
        } else {
            assert(shorter.proving_sections.take(k) =~= msg.proving_sections.take(k));
            assert forall|i: int| k <= i < n implies !m.trusts(
                (#[trigger] msg.proving_sections[i]).sec_info,
                false,
            ) by {
                if i < n - 1 {
                    assert(shorter.proving_sections[i] == msg.proving_sections[i]);
                }
            }
        }
    } else {
        assert(msg.proving_sections.take(0) =~= msg.proving_sections);
    }
}

/// A message is refused as coming from an unknown hop exactly if it has a source section and neither
/// that nor any of its proving sections is trusted.
pub proof fn known_messages_are_extended(m: ChainModel, msg: MessageModel)
    requires
        m.valid(),
    ensures
        m.extend_step(msg).1 == Err::<(), RoutingError>(RoutingError::UnknownPrevHop) <==> {
            &&& msg.src_section matches Some(src) && !m.trusts(src, false)
            &&& forall|i: int|
                0 <= i < msg.proving_sections.len() ==> !m.trusts(
                    (#[trigger] msg.proving_sections[i]).sec_info,
                    false,
                )
        },
{
    untrusted_hops_are_dropped(m, msg);
    let (part, known) = m.trusted_part(msg);
    let n = part.proving_sections.len() as int;
    extending_keeps_message(m, msg);
    if known {
        if part.last_hop() is Some {
            let hop = part.last_hop()->0;
            if n > 0 {
                assert(part.proving_sections[n - 1] == msg.proving_sections[n - 1]);
            }
            assert(m.trusts(hop, false));
            trusted_sections_are_attested(m, hop);
            unknown_sections_are_refused(m, hop, msg.dst.xor_name());
        }
    }
}

/// A message from a section that a known neighbour directly follows is not refused as coming from an
/// unknown hop.
pub proof fn message_from_older_neighbour_is_known(
    m: ChainModel,
    msg: MessageModel,
    info: SectionModel,
    p: Prefix,
)
    requires
        m.valid(),
        msg.src_section == Some(info),
        !info.prefix.covers(m.our_name()),
        m.neighbours.dom().contains(p),
        m.neighbours[p].sec_info.prev_hash.contains(info.hash),
    ensures
        m.extend_step(msg).1 != Err::<(), RoutingError>(RoutingError::UnknownPrevHop),
{
    followed_section_is_trusted(m, info, p);
    known_messages_are_extended(m, msg);
}

/// What is appended to a message are the sections that vouch for its last trusted hop on the way to
/// its destination. A message without a source section and trusted hops is left alone.
pub proof fn message_gets_proof_of_last_hop(m: ChainModel, msg: MessageModel)
    ensures
        ({
            let part = m.trusted_part(msg).0.proving_sections;
            let hop = if part.len() > 0 {
                Some(part.last().sec_info)
            } else {
                msg.src_section
            };
            let (next, result) = m.extend_step(msg);
            &&& next == (MessageModel { proving_sections: next.proving_sections, ..msg })
            &&& hop is None ==> result is Ok && next.proving_sections == part
            &&& hop matches Some(hop) ==> (result is Ok ==> m.proving_sections(
                hop,
                msg.dst.xor_name(),
            ) == Ok::<Seq<ProvingModel>, RoutingError>(
                next.proving_sections.skip(part.len() as int),
            ) && next.proving_sections.take(part.len() as int) == part)
            &&& result is Err ==> next.proving_sections == part
        }),
{
    extending_keeps_message(m, msg);
    let part = m.trusted_part(msg).0;
    trusted_part_keeps(m, msg);
    untrusted_hops_are_dropped(m, msg);
    let (next, result) = m.extend_step(msg);
    let k = part.proving_sections.len() as int;
    assert(part.proving_sections.take(k) =~= part.proving_sections);
    if part.last_hop() is Some {
        match m.proving_sections(part.last_hop()->0, msg.dst.xor_name()) {
            Ok(sections) => {
                let all = part.proving_sections + sections;
                assert(all.skip(k) =~= sections);
                assert(all.take(k) =~= part.proving_sections);
            },
            Err(_) => {},
        }
    }
}

proof fn trusted_part_keeps(m: ChainModel, msg: MessageModel)
    ensures
        m.trusted_part(msg).0 == (MessageModel {
            proving_sections: m.trusted_part(msg).0.proving_sections,
            ..msg
        }),
    decreases msg.proving_sections.len(),
{
    if msg.proving_sections.len() > 0 {
        trusted_part_keeps(
            m,
            MessageModel { proving_sections: msg.proving_sections.drop_last(), ..msg },
        );
    }
}

/// Where no section is noted that is closer to the destination than ours, the next hop is assumed to
/// know only our oldest description; else what is noted for the first of them.
pub proof fn next_hop_is_closer(m: ChainModel, dst: XorName)
    requires
        m.valid(),
    ensures
        (forall|p: Prefix| #[trigger] m.their_knowledge.dom().contains(p) ==> !is_closer(m, p, dst))
            ==> m.next_hop_version(dst) == m.state.our_infos[0].0.version,
        forall|p: Prefix| #[trigger]
            m.their_knowledge.dom().contains(p) && is_closer(m, p, dst) && (forall|q: Prefix|
                #[trigger]
                m.their_knowledge.dom().contains(q) && is_closer(m, q, dst) ==> q == p || key_less::<
                    Prefix,
                >(p, q)) ==> m.next_hop_version(dst) == m.their_knowledge[p],
{
    let f = |p: Prefix|
        common_len(p.bits(), dst.bits()) > common_len(m.our_prefix().bits(), dst.bits());
    find_first_least::<Prefix>(m.their_knowledge.dom(), f);
    let found = find_first(sorted::<Prefix>(m.their_knowledge.dom()), f);
    if found is Some {
        let x = found->0;
        assert(m.their_knowledge.dom().contains(x) && f(x));
        assert(is_closer(m, x, dst));
        assert forall|p: Prefix| #[trigger]
            m.their_knowledge.dom().contains(p) && is_closer(m, p, dst) && (forall|q: Prefix|
                #[trigger]
                m.their_knowledge.dom().contains(q) && is_closer(m, q, dst) ==> q == p || key_less::<
                    Prefix,
                >(p, q)) implies m.next_hop_version(dst) == m.their_knowledge[p] by {
            assert(f(p));
            if x != p {
                lex_asymmetric(Prefix::code(x), Prefix::code(p));
            }
        }
    } else {
        assert forall|p: Prefix| #[trigger] m.their_knowledge.dom().contains(p) implies !is_closer(
            m,
            p,
            dst,
        ) by {
            assert(!f(p));
        }
    }
}

} // verus!
