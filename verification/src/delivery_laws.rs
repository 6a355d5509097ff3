//! What holds of the nodes that messages are sent on to.

use crate::authority::Authority;
use crate::chain_model::{all_but, only, peer_names, without, ChainModel};
use crate::error::Error;
use crate::id::PublicId;
use crate::neighbour_laws::{adjoining_do_not_overlap, compatible_symmetric, separate};
use crate::order::{key_less, lex_asymmetric, Checked, Coded};
use crate::ordered::{ascending_distinct, sorted, sorted_props};
use crate::prefix::{begins, covered, Prefix};
use crate::section_info::SectionModel;
use crate::seqs::{
    by_distance, by_distance_contains, by_distance_sorted, find_first, find_first_least,
    find_first_position, find_first_props, is_by_distance, push_contains, Placed,
};
use crate::xor_name::{
    common_len, common_len_props, common_len_unique, nearer, nearer_asymmetric, nearer_total,
    not_farther, XorName,
};
use vstd::prelude::*;

verus! {

/// What is left of a sequence are its elements that are in the set.
pub proof fn only_contains<T>(s: Seq<T>, set: Set<T>)
    ensures
        forall|x: T| #[trigger] only(s, set).contains(x) <==> s.contains(x) && set.contains(x),
    decreases s.len(),
{
    if s.len() > 0 {
        let rest = s.drop_last();
        only_contains(rest, set);
        assert(s =~= rest.push(s.last()));
        push_contains(rest, s.last());
        push_contains(only(rest, set), s.last());
    }
}

/// The names in a valid section are finitely many.
proof fn names_finite(info: SectionModel)
    requires
        info.valid(),
    ensures
        info.names().finite(),
{
    let q = sorted::<PublicId>(info.members);
    assert(q.to_set() == info.members);
    info.members.lemma_map_finite(|id: PublicId| id.xor_name());
}

/// Each known section is valid.
proof fn section_valid(m: ChainModel, p: Prefix)
    requires
        m.valid(),
        m.knows(p),
    ensures
        m.section(p).valid(),
        p.inv(),
{
    assert(m.state.our_infos[m.state.our_infos.len() - 1].0.valid());
}

/// The list of the names in a section holds the names in that section.
proof fn names_in_contains(m: ChainModel, p: Prefix)
    requires
        m.valid(),
        m.knows(p),
    ensures
        forall|x: XorName| #[trigger]
            m.names_in(p).contains(x) <==> m.section(p).names().contains(x),
{
    section_valid(m, p);
    names_finite(m.section(p));
    let names = m.section(p).names();
    sorted_props::<XorName>(names);
    assert forall|x: XorName| #[trigger] m.names_in(p).contains(x) <==> names.contains(x) by {
        assert(m.names_in(p).to_set().contains(x) == names.contains(x));
    }
}

/// All of the listed prefixes are known, and each known one is listed.
proof fn all_prefixes_contains(m: ChainModel)
    requires
        m.valid(),
    ensures
        forall|p: Prefix| #[trigger] m.all_prefixes().contains(p) <==> m.knows(p),
        m.all_prefixes().no_duplicates(),
{
    push_contains(m.keys(), m.our_prefix());
    m.neighbours_are_others();
    assert forall|p: Prefix| #[trigger] m.all_prefixes().contains(p) <==> m.knows(p) by {
        assert(m.keys().to_set().contains(p) == m.neighbours.dom().contains(p));
    }
    ascending_distinct::<Prefix>(m.keys());
    let s = m.all_prefixes();
    assert forall|i: int, j: int| 0 <= i < s.len() && 0 <= j < s.len() && i != j implies s[i]
        != s[j] by {
        if i < m.keys().len() && j < m.keys().len() {
            assert(m.keys()[i] != m.keys()[j]);
        } else {
            let k = if i < j {
                i
            } else {
                j
            };
            assert(m.keys().contains(m.keys()[k]));
            assert(m.keys().to_set().contains(m.keys()[k]));
        }
    }
}

/// A message is never sent back to us, and only to nodes that we are connected to.
pub proof fn targets_are_connected_others(m: ChainModel, dst: Authority, peers: Set<XorName>)
    requires
        m.valid(),
    ensures
        m.targets_of(dst, peers) matches Ok(x) ==> !x.0.contains(m.our_name()) && forall|n: XorName|
            #[trigger]
            x.0.contains(n) ==> peers.contains(n),
{
    let ours = m.our_name();
    match dst {
        Authority::ManagedNode(name) => {
            node_targets_ok(m, name, peers);
        },
        Authority::Client { client_id, proxy_node_name } => {
            node_targets_ok(m, proxy_node_name, peers);
        },
        Authority::ClientManager(name) => {
            group_targets_ok(m, name, peers);
        },
        Authority::NaeManager(name) => {
            group_targets_ok(m, name, peers);
        },
        Authority::NodeManager(name) => {
            group_targets_ok(m, name, peers);
        },
        Authority::Section(name) => {
            group_targets_ok(m, name, peers);
        },
        Authority::PrefixSection(prefix) => {
            next_hops_ok(m, prefix.lowest_name(), peers);
            let names = m.names_under(m.all_prefixes(), prefix);
            only_contains(names, peers);
            only_contains(only(names, peers), all_but(ours));
        },
    }
}

proof fn next_hops_ok(m: ChainModel, target: XorName, peers: Set<XorName>)
    ensures
        m.next_hops(target, peers) matches Ok(x) ==> !x.0.contains(m.our_name()) && forall|
            n: XorName,
        | #[trigger]
            x.0.contains(n) ==> peers.contains(n),
{
    if m.next_hops(target, peers) is Ok {
        let f = |p: Prefix| m.is_reachable(p, peers);
        find_first_props(m.prefixes_near(target), f);
        let p = find_first(m.prefixes_near(target), f)->0;
        let near = only(m.names_in(p), peers);
        only_contains(m.names_in(p), peers);
        by_distance_contains(near, target);
        only_contains(by_distance(near, target), all_but(m.our_name()));
    }
}

proof fn node_targets_ok(m: ChainModel, name: XorName, peers: Set<XorName>)
    ensures
        m.node_targets(name, peers) matches Ok(x) ==> !x.0.contains(m.our_name()) && forall|
            n: XorName,
        | #[trigger]
            x.0.contains(n) ==> peers.contains(n),
{
    next_hops_ok(m, name, peers);
}

proof fn closest_known_contains(m: ChainModel, name: XorName, count: usize, peers: Set<XorName>)
    ensures
        m.closest_known(name, count, peers).len() <= count,
        forall|n: XorName| #[trigger]
            m.closest_known(name, count, peers).contains(n) ==> peers.contains(n) && m.names_near(
                by_distance(m.all_prefixes(), name),
                name,
            ).contains(n),
{
    let all = m.names_near(by_distance(m.all_prefixes(), name), name);
    only_contains(all, peers);
    let near = only(all, peers);
    let first = m.closest_known(name, count, peers);
    assert forall|n: XorName| #[trigger] first.contains(n) implies near.contains(n) by {
        let i = choose|i: int| 0 <= i < first.len() && first[i] == n;
        assert(near[i] == n);
    }
}

proof fn group_targets_ok(m: ChainModel, name: XorName, peers: Set<XorName>)
    requires
        m.valid(),
    ensures
        m.group_targets(name, peers) matches Ok(x) ==> !x.0.contains(m.our_name()) && forall|
            n: XorName,
        | #[trigger]
            x.0.contains(n) ==> peers.contains(n),
{
    next_hops_ok(m, name, peers);
    if m.our_prefix().covers(name) {
        own_group_gets_message(m, name, peers);
    }
}

/// The names in sections that were put one behind the other are the names in those sections.
proof fn names_near_contains(m: ChainModel, sections: Seq<Prefix>, name: XorName)
    requires
        m.valid(),
        forall|p: Prefix| #[trigger] sections.contains(p) ==> m.knows(p),
    ensures
        forall|x: XorName| #[trigger]
            m.names_near(sections, name).contains(x) <==> exists|p: Prefix| #[trigger]
                sections.contains(p) && m.section(p).names().contains(x),
    decreases sections.len(),
{
    if sections.len() > 0 {
        let rest = sections.drop_last();
        let p = sections.last();
        assert(sections =~= rest.push(p));
        push_contains(rest, p);
        assert forall|q: Prefix| #[trigger] rest.contains(q) implies m.knows(q) by {
            assert(sections.contains(q));
        }
        assert(sections.contains(p));
        names_near_contains(m, rest, name);
        names_in_contains(m, p);
        by_distance_contains(m.names_in(p), name);
        let a = m.names_near(rest, name);
        let b = by_distance(m.names_in(p), name);
        assert forall|x: XorName| #[trigger] (a + b).contains(x) <==> exists|q: Prefix| #[trigger]
            sections.contains(q) && m.section(q).names().contains(x) by {
            concat_contains(a, b, x);
            if a.contains(x) {
                let q = choose|q: Prefix| #[trigger]
                    rest.contains(q) && m.section(q).names().contains(x);
                assert(sections.contains(q));
            }
            if b.contains(x) {
                assert(sections.contains(p) && m.section(p).names().contains(x));
            }
            if exists|q: Prefix| #[trigger]
                sections.contains(q) && m.section(q).names().contains(x) {
                let q = choose|q: Prefix| #[trigger]
                    sections.contains(q) && m.section(q).names().contains(x);
                if rest.contains(q) {
                    assert(a.contains(x));
                } else {
                    assert(b.contains(x));
                }
            }
        }
    }
}

proof fn concat_contains<T>(a: Seq<T>, b: Seq<T>, x: T)
    ensures
        (a + b).contains(x) <==> a.contains(x) || b.contains(x),
{
    let s = a + b;
    if a.contains(x) {
        let i = choose|i: int| 0 <= i < a.len() && a[i] == x;
        assert(s[i] == x);
    }
    if b.contains(x) {
        let i = choose|i: int| 0 <= i < b.len() && b[i] == x;
        assert(s[a.len() + i] == x);
    }
    if s.contains(x) {
        let i = choose|i: int| 0 <= i < s.len() && s[i] == x;
        if i < a.len() {
            assert(a[i] == x);
        } else {
            assert(b[i - a.len()] == x);
        }
    }
}

/// The sections of the network as we know them fit together: no two neighbours overlap, and every
/// section has only members whose names begin with its prefix.
pub open spec fn tidy(m: ChainModel) -> bool {
    &&& separate(m)
    &&& forall|p: Prefix, x: XorName|
        #![trigger m.knows(p), m.section(p).names().contains(x)]
        m.knows(p) && m.section(p).names().contains(x) ==> p.covers(x)
}

/// In a tidy chain no two known sections overlap.
proof fn known_do_not_overlap(m: ChainModel, p: Prefix, q: Prefix)
    requires
        m.valid(),
        tidy(m),
        m.knows(p),
        m.knows(q),
        p != q,
    ensures
        !p.compatible(q),
{
    if p == m.our_prefix() {
        assert(m.neighbours.dom().contains(q));
        adjoining_do_not_overlap(p, q);
    } else if q == m.our_prefix() {
        assert(m.neighbours.dom().contains(p));
        adjoining_do_not_overlap(q, p);
    } else {
        assert(m.neighbours.dom().contains(p) && m.neighbours.dom().contains(q));
    }
}

/// Of two names that begin with prefixes that do not overlap, the one with the nearer prefix is
/// nearer.
proof fn nearer_prefix_nearer_name(
    t: Seq<bool>,
    p: Seq<bool>,
    q: Seq<bool>,
    x: Seq<bool>,
    y: Seq<bool>,
)
    requires
        not_farther(t, p, q),
        !begins(p, q),
        !begins(q, p),
        begins(p, x),
        begins(q, y),
    ensures
        nearer(t, x, y),
{
    let k = common_len(q, p);
    common_len_props(q, p);
    assert(k < p.len() && k < q.len());
    assert forall|i: int| 0 <= i < k implies x[i] == y[i] by {
        assert(q[i] == p[i]);
        assert(p[i] == x[i] && q[i] == y[i]);
    }
    assert(p[k as int] == x[k as int] && q[k as int] == y[k as int]);
    common_len_unique(x, y, k);
    assert(nearer(t, q, p) == (q[k as int] == t[k as int]));
}

/// The elements that are left of a sequence keep the order of their distances.
proof fn only_keeps_order(s: Seq<XorName>, set: Set<XorName>, t: XorName)
    requires
        is_by_distance(s, t),
    ensures
        is_by_distance(only(s, set), t),
    decreases s.len(),
{
    if s.len() > 0 {
        let rest = s.drop_last();
        assert forall|i: int, j: int| 0 <= i < j < rest.len() implies #[trigger] not_farther(
            t.bits(),
            Placed::place(&rest[i]),
            Placed::place(&rest[j]),
        ) by {
            assert(not_farther(
                t.bits(),
                Placed::place(&s[i]),
                Placed::place(&s[j]),
            ));
        }
        only_keeps_order(rest, set, t);
        only_contains(rest, set);
        let o = only(rest, set);
        let r = only(s, set);
        assert forall|i: int, j: int| 0 <= i < j < r.len() implies #[trigger] not_farther(
            t.bits(),
            Placed::place(&r[i]),
            Placed::place(&r[j]),
        ) by {
            if j < o.len() {
                assert(not_farther(
                    t.bits(),
                    Placed::place(&o[i]),
                    Placed::place(&o[j]),
                ));
            } else {
                assert(o.contains(o[i]));
                assert(rest.contains(o[i]));
                let k = choose|k: int| 0 <= k < rest.len() && rest[k] == o[i];
                assert(not_farther(
                    t.bits(),
                    Placed::place(&s[k]),
                    Placed::place(&s[s.len() - 1]),
                ));
            }
        }
    }
}

/// In a tidy chain the names in sections that stand in the order of their distances stand in the
/// order of theirs.
proof fn names_near_sorted(m: ChainModel, sections: Seq<Prefix>, name: XorName)
    requires
        m.valid(),
        tidy(m),
        forall|p: Prefix| #[trigger] sections.contains(p) ==> m.knows(p),
        sections.no_duplicates(),
        is_by_distance(sections, name),
    ensures
        is_by_distance(m.names_near(sections, name), name),
    decreases sections.len(),
{
    if sections.len() > 0 {
        let t = name.bits();
        let rest = sections.drop_last();
        let p = sections.last();
        let n = sections.len() - 1;
        assert(sections =~= rest.push(p));
        push_contains(rest, p);
        assert forall|q: Prefix| #[trigger] rest.contains(q) implies m.knows(q) by {
            assert(sections.contains(q));
        }
        assert forall|i: int, j: int| 0 <= i < j < rest.len() implies #[trigger] not_farther(
            t,
            Placed::place(&rest[i]),
            Placed::place(&rest[j]),
        ) by {
            assert(not_farther(
                t,
                Placed::place(&sections[i]),
                Placed::place(&sections[j]),
            ));
        }
        names_near_sorted(m, rest, name);
        names_near_contains(m, rest, name);
        assert(sections.contains(p));
        names_in_contains(m, p);
        by_distance_contains(m.names_in(p), name);
        by_distance_sorted(m.names_in(p), name);
        let a = m.names_near(rest, name);
        let b = by_distance(m.names_in(p), name);
        let r = a + b;
        assert forall|i: int, j: int| 0 <= i < j < r.len() implies #[trigger] not_farther(
            t,
            Placed::place(&r[i]),
            Placed::place(&r[j]),
        ) by {
            if j < a.len() {
                assert(not_farther(
                    t,
                    Placed::place(&a[i]),
                    Placed::place(&a[j]),
                ));
            } else if i >= a.len() {
                let (k, l) = (i - a.len(), j - a.len());
                assert(not_farther(
                    t,
                    Placed::place(&b[k]),
                    Placed::place(&b[l]),
                ));
            } else {
                let x = a[i];
                let y = b[j - a.len()];
                assert(a.contains(x));
                assert(b.contains(y));
                let q = choose|q: Prefix| #[trigger]
                    rest.contains(q) && m.section(q).names().contains(x);
                let k = choose|k: int| 0 <= k < rest.len() && rest[k] == q;
                assert(sections[k] == q);
                assert(sections.contains(q));
                assert(sections[k] != sections[n]);
                assert(not_farther(
                    t,
                    Placed::place(&sections[k]),
                    Placed::place(&sections[n]),
                ));
                assert(m.knows(q) && m.knows(p));
                assert(m.section(p).names().contains(y));
                known_do_not_overlap(m, q, p);
                nearer_prefix_nearer_name(t, q.bits(), p.bits(), x.bits(), y.bits());
                nearer_asymmetric(t, x.bits(), y.bits());
            }
        }
    }
}

/// The sections that we know in the order of their distances, each of them once.
proof fn order_props(m: ChainModel, name: XorName)
    requires
        m.valid(),
    ensures
        forall|p: Prefix| #[trigger]
            by_distance(m.all_prefixes(), name).contains(p) <==> m.knows(p),
        by_distance(m.all_prefixes(), name).no_duplicates(),
        is_by_distance(by_distance(m.all_prefixes(), name), name),
{
    let s = m.all_prefixes();
    all_prefixes_contains(m);
    by_distance_contains(s, name);
    by_distance_sorted(s, name);
    s.lemma_multiset_has_no_duplicates();
    by_distance(s, name).lemma_multiset_has_no_duplicates_conv();
}

/// The names closest to a name come in the order of their distances, provided that the sections fit
/// together. They are no more than were asked for, and we are connected to all of them.
pub proof fn closest_names_ascend(m: ChainModel, name: XorName, count: usize, peers: Set<XorName>)
    requires
        m.valid(),
        tidy(m),
    ensures
        is_by_distance(m.closest_known(name, count, peers), name),
        m.closest_known(name, count, peers).len() <= count,
        forall|n: XorName| #[trigger]
            m.closest_known(name, count, peers).contains(n) ==> peers.contains(n),
{
    let order = by_distance(m.all_prefixes(), name);
    order_props(m, name);
    names_near_sorted(m, order, name);
    let all = m.names_near(order, name);
    only_keeps_order(all, peers, name);
    let near = only(all, peers);
    let first = m.closest_known(name, count, peers);
    assert forall|i: int, j: int| 0 <= i < j < first.len() implies #[trigger] not_farther(
        name.bits(),
        Placed::place(&first[i]),
        Placed::place(&first[j]),
    ) by {
        assert(not_farther(
            name.bits(),
            Placed::place(&near[i]),
            Placed::place(&near[j]),
        ));
    }
    closest_known_contains(m, name, count, peers);
}

/// Nobody who is left out is closer: of the known nodes that we are connected to, those that are not
/// among the closest ones are no nearer than any of those that are.
pub proof fn closest_names_are_closest(
    m: ChainModel,
    name: XorName,
    count: usize,
    peers: Set<XorName>,
    p: Prefix,
    left_out: XorName,
    y: XorName,
)
    requires
        m.valid(),
        tidy(m),
        m.knows(p),
        m.section(p).names().contains(left_out),
        peers.contains(left_out),
        !m.closest_known(name, count, peers).contains(left_out),
        m.closest_known(name, count, peers).contains(y),
    ensures
        not_farther(name.bits(), y.bits(), left_out.bits()),
{
    let order = by_distance(m.all_prefixes(), name);
    order_props(m, name);
    names_near_sorted(m, order, name);
    names_near_contains(m, order, name);
    let all = m.names_near(order, name);
    assert(order.contains(p));
    assert(all.contains(left_out));
    only_keeps_order(all, peers, name);
    only_contains(all, peers);
    let near = only(all, peers);
    let first = m.closest_known(name, count, peers);
    assert(near.contains(left_out));
    let i = choose|i: int| 0 <= i < near.len() && near[i] == left_out;
    let j = choose|j: int| 0 <= j < first.len() && first[j] == y;
    assert(near[j] == y);
    if i < first.len() {
        assert(first[i] == left_out);
    }
    assert(not_farther(
        name.bits(),
        Placed::place(&near[j]),
        Placed::place(&near[i]),
    ));
}

/// A section whose prefix begins a name is the closest one to it, if it is ours and has members, or
/// no known section has any.
pub proof fn own_section_is_closest(m: ChainModel, name: XorName)
    requires
        m.valid(),
        m.our_prefix().covers(name),
        m.is_inhabited(m.our_prefix()) || m.is_deserted(),
    ensures
        m.is_closest_prefix(m.our_prefix(), name),
{
    let p = m.our_prefix();
    let t = name.bits();
    assert forall|q: Prefix| #[trigger] m.is_inhabited(q) implies not_farther(
        t,
        p.bits(),
        q.bits(),
    ) by {
        if q == p {
            if nearer(t, p.bits(), p.bits()) {
                nearer_asymmetric(t, p.bits(), p.bits());
            }
        } else {
            assert(m.neighbours.dom().contains(q));
            adjoining_do_not_overlap(p, q);
            common_len_props(p.bits(), q.bits());
            let k = common_len(p.bits(), q.bits());
            assert(p.bits()[k as int] == t[k as int]);
            assert(nearer(t, p.bits(), q.bits()));
            nearer_asymmetric(t, p.bits(), q.bits());
        }
    }
}

/// What is left of a sequence without duplicates has none.
proof fn only_distinct<T>(s: Seq<T>, set: Set<T>)
    requires
        s.no_duplicates(),
    ensures
        only(s, set).no_duplicates(),
    decreases s.len(),
{
    if s.len() > 0 {
        let rest = s.drop_last();
        only_distinct(rest, set);
        only_contains(rest, set);
        let left = only(rest, set);
        if set.contains(s.last()) {
            assert forall|i: int| 0 <= i < left.len() implies #[trigger] left[i] != s.last() by {
                assert(left.contains(left[i]));
                let j = choose|j: int| 0 <= j < rest.len() && rest[j] == left[i];
                assert(s[j] == left[i]);
            }
        }
    }
}

/// The destination is the section or a group that the name belongs to.
pub open spec fn is_for_group(dst: Authority, name: XorName) -> bool {
    ||| dst == Authority::Section(name)
    ||| dst == Authority::ClientManager(name)
    ||| dst == Authority::NaeManager(name)
    ||| dst == Authority::NodeManager(name)
}

proof fn own_group_gets_message(m: ChainModel, name: XorName, peers: Set<XorName>)
    requires
        m.valid(),
        m.our_prefix().covers(name),
    ensures
        m.group_targets(name, peers) matches Ok(x) && x.1 == x.0.len() && x.0.no_duplicates()
            && forall|n: XorName| #[trigger]
            x.0.contains(n) <==> m.our_info().names().contains(n) && n != m.our_name()
                && peers.contains(n),
{
    section_valid(m, m.our_prefix());
    names_finite(m.our_info());
    let rest = m.our_info().names().remove(m.our_name());
    sorted_props::<XorName>(rest);
    let listed = sorted::<XorName>(rest);
    only_contains(listed, peers);
    only_distinct(listed, peers);
    assert forall|n: XorName| #[trigger] only(listed, peers).contains(n) <==> (
    m.our_info().names().contains(n) && n != m.our_name() && peers.contains(n)) by {
        assert(listed.to_set().contains(n) == rest.contains(n));
    }
}

/// A message to a section or to a group whose name begins with our prefix goes to all other members
/// of our section that we are connected to, to each of them once.
pub proof fn own_section_gets_message(
    m: ChainModel,
    dst: Authority,
    name: XorName,
    peers: Set<XorName>,
)
    requires
        m.valid(),
        is_for_group(dst, name),
        m.our_prefix().covers(name),
    ensures
        m.targets_of(dst, peers) matches Ok(x) && x.1 == x.0.len() && x.0.no_duplicates() && forall|
            n: XorName,
        | #[trigger]
            x.0.contains(n) <==> m.our_info().names().contains(n) && n != m.our_name()
                && peers.contains(n),
{
    own_group_gets_message(m, name, peers);
}

/// Where we are connected to our whole section, a message to a section or to a group whose name
/// begins with our prefix goes to our whole section but us, however many members it has.
pub proof fn whole_section_gets_message(
    m: ChainModel,
    dst: Authority,
    name: XorName,
    peers: Set<XorName>,
)
    requires
        m.valid(),
        is_for_group(dst, name),
        m.our_prefix().covers(name),
        m.our_info().names().subset_of(peers),
    ensures
        m.targets_of(dst, peers) matches Ok(x) && x.0.to_set() == m.our_info().names().remove(
            m.our_name(),
        ) && x.1 == x.0.len() && x.1 == m.our_info().names().remove(m.our_name()).len(),
{
    own_group_gets_message(m, name, peers);
    let targets = m.group_targets(name, peers)->Ok_0.0;
    assert(targets.to_set() =~= m.our_info().names().remove(m.our_name()));
    targets.unique_seq_to_set();
}

/// A message to a section or to a group whose name does not begin with our prefix goes to the next
/// hops, whichever section is the closest one that we know.
pub proof fn other_section_is_routed(
    m: ChainModel,
    dst: Authority,
    name: XorName,
    peers: Set<XorName>,
)
    requires
        is_for_group(dst, name),
        !m.our_prefix().covers(name),
    ensures
        m.targets_of(dst, peers) == m.next_hops(name, peers),
{
}

/// The names in the sections under a prefix.
proof fn names_under_contains(m: ChainModel, sections: Seq<Prefix>, prefix: Prefix)
    requires
        m.valid(),
        forall|p: Prefix| #[trigger] sections.contains(p) ==> m.knows(p),
    ensures
        forall|x: XorName| #[trigger]
            m.names_under(sections, prefix).contains(x) <==> exists|p: Prefix| #[trigger]
                sections.contains(p) && prefix.compatible(p) && m.section(p).names().contains(x),
    decreases sections.len(),
{
    if sections.len() > 0 {
        let rest = sections.drop_last();
        let p = sections.last();
        assert(sections =~= rest.push(p));
        push_contains(rest, p);
        assert forall|q: Prefix| #[trigger] rest.contains(q) implies m.knows(q) by {
            assert(sections.contains(q));
        }
        assert(sections.contains(p));
        names_under_contains(m, rest, prefix);
        names_in_contains(m, p);
        let a = m.names_under(rest, prefix);
        let r = m.names_under(sections, prefix);
        assert forall|x: XorName| #[trigger] r.contains(x) <==> exists|q: Prefix| #[trigger]
            sections.contains(q) && prefix.compatible(q) && m.section(q).names().contains(x) by {
            concat_contains(a, m.names_in(p), x);
            if a.contains(x) {
                let q = choose|q: Prefix| #[trigger]
                    rest.contains(q) && prefix.compatible(q) && m.section(q).names().contains(x);
                assert(sections.contains(q));
            }
            if exists|q: Prefix| #[trigger]
                sections.contains(q) && prefix.compatible(q) && m.section(q).names().contains(x) {
                let q = choose|q: Prefix| #[trigger]
                    sections.contains(q) && prefix.compatible(q) && m.section(q).names().contains(x);
                if rest.contains(q) {
                    assert(a.contains(x));
                }
            }
        }
    }
}

/// A message to all sections under a prefix that we are under goes to all other nodes there that we
/// are connected to, provided that we know all those sections; else it goes nowhere.
pub proof fn prefix_message_reaches_all(m: ChainModel, prefix: Prefix, peers: Set<XorName>)
    requires
        m.valid(),
        m.is_in(Authority::PrefixSection(prefix), peers),
    ensures
        m.targets_of(Authority::PrefixSection(prefix), peers) is Ok <==> covered(
            prefix.bits(),
            m.neighbours.dom().insert(m.our_prefix()),
        ),
        m.targets_of(Authority::PrefixSection(prefix), peers) matches Ok(x) ==> x.1 == x.0.len()
            && forall|n: XorName| #[trigger]
            x.0.contains(n) <==> n != m.our_name() && peers.contains(n) && exists|p: Prefix|
                #[trigger]
                m.knows(p) && prefix.compatible(p) && m.section(p).names().contains(n),
{
    compatible_symmetric(prefix, m.our_prefix());
    let sections = m.all_prefixes();
    all_prefixes_contains(m);
    names_under_contains(m, sections, prefix);
    let names = m.names_under(sections, prefix);
    only_contains(names, peers);
    let near = only(names, peers);
    only_contains(near, all_but(m.our_name()));
    let targets = without(near, m.our_name());
    assert forall|n: XorName| #[trigger] targets.contains(n) <==> n != m.our_name()
        && peers.contains(n) && exists|p: Prefix| #[trigger]
        m.knows(p) && prefix.compatible(p) && m.section(p).names().contains(n) by {
        if names.contains(n) {
            let p = choose|p: Prefix| #[trigger]
                sections.contains(p) && prefix.compatible(p) && m.section(p).names().contains(n);
            assert(m.knows(p));
        }
        if exists|p: Prefix| #[trigger]
            m.knows(p) && prefix.compatible(p) && m.section(p).names().contains(n) {
            let p = choose|p: Prefix| #[trigger]
                m.knows(p) && prefix.compatible(p) && m.section(p).names().contains(n);
            assert(sections.contains(p));
        }
    }
}

/// There is only one closest section.
pub proof fn closest_prefix_unique(m: ChainModel, name: XorName, p: Prefix, q: Prefix)
    requires
        m.valid(),
        m.is_closest_prefix(p, name),
        m.is_closest_prefix(q, name),
    ensures
        p == q,
{
    nearer_total(name.bits(), p.bits(), q.bits());
    section_valid(m, p);
    section_valid(m, q);
    Prefix::bits_injective(p, q);
}

/// The members of the sections with the given prefixes.
pub open spec fn members_of(m: ChainModel, sections: Seq<Prefix>) -> Set<PublicId> {
    Set::new(
        |id: PublicId|
            exists|p: Prefix| #[trigger] sections.contains(p) && m.section(p).members.contains(id),
    )
}

/// Nobody is a member of two known sections.
pub open spec fn disjoint_sections(m: ChainModel) -> bool {
    forall|p: Prefix, q: Prefix, id: PublicId|
        #![trigger m.section(p).members.contains(id), m.section(q).members.contains(id)]
        m.knows(p) && m.knows(q) && m.section(p).members.contains(id) && m.section(
            q,
        ).members.contains(id) ==> p == q
}

proof fn others_are_distinct(m: ChainModel, sections: Seq<Prefix>)
    requires
        m.valid(),
        disjoint_sections(m),
        sections.no_duplicates(),
        forall|p: Prefix| #[trigger] sections.contains(p) ==> m.knows(p),
    ensures
        members_of(m, sections).finite(),
        m.others_in(sections) == members_of(m, sections).remove(m.our_id).len(),
    decreases sections.len(),
{
    if sections.len() == 0 {
        assert(members_of(m, sections) =~= Set::empty());
        assert(members_of(m, sections).remove(m.our_id) =~= Set::empty());
    } else {
        let rest = sections.drop_last();
        let p = sections.last();
        assert(sections =~= rest.push(p));
        push_contains(rest, p);
        assert(sections.contains(p));
        assert forall|q: Prefix| #[trigger] rest.contains(q) implies m.knows(q) && q != p by {
            assert(sections.contains(q));
            let i = choose|i: int| 0 <= i < rest.len() && rest[i] == q;
            assert(sections[i] == q);
        }
        others_are_distinct(m, rest);
        section_valid(m, p);
        let first = members_of(m, rest);
        let more = m.section(p).members;
        let q = sorted::<PublicId>(more);
        assert(q.to_set() == more);
        let all = members_of(m, sections);
        assert forall|id: PublicId| #[trigger] all.contains(id) <==> first.contains(id)
            || more.contains(id) by {
            if all.contains(id) {
                let r = choose|r: Prefix| #[trigger]
                    sections.contains(r) && m.section(r).members.contains(id);
                assert(rest.contains(r) || r == p);
            }
            if first.contains(id) {
                let r = choose|r: Prefix| #[trigger]
                    rest.contains(r) && m.section(r).members.contains(id);
                assert(sections.contains(r));
            }
        }
        assert(all =~= first.union(more));
        let a = first.remove(m.our_id);
        let b = more.remove(m.our_id);
        assert(all.remove(m.our_id) =~= a.union(b));
        assert(a.disjoint(b)) by {
            assert forall|id: PublicId| a.contains(id) implies !b.contains(id) by {
                let r = choose|r: Prefix| #[trigger]
                    rest.contains(r) && m.section(r).members.contains(id);
                assert(m.section(r).members.contains(id));
            }
        }
        vstd::set_lib::lemma_set_disjoint_lens(a, b);
    }
}

/// Where nobody is a member of two sections, the size of the table is the number of the members of
/// all known sections other than us, whether or not we are one of them.
pub proof fn size_counts_others(m: ChainModel)
    requires
        m.valid(),
        disjoint_sections(m),
    ensures
        m.size() == members_of(m, m.all_prefixes()).remove(m.our_id).len(),
{
    all_prefixes_contains(m);
    others_are_distinct(m, m.all_prefixes());
}

/// There is only one shortest prefix that is favoured.
pub proof fn min_len_prefix_unique(m: ChainModel, p: Prefix, q: Prefix)
    requires
        m.is_min_len_prefix(p),
        m.is_min_len_prefix(q),
    ensures
        p == q,
{
    if p != q && p != m.our_prefix() && q != m.our_prefix() {
        assert(m.neighbours.dom().contains(p) && m.neighbours.dom().contains(q));
        assert(key_less::<Prefix>(p, q) && key_less::<Prefix>(q, p));
        lex_asymmetric(Prefix::code(p), Prefix::code(q));
    }
}

/// A member of the section has the name.
pub open spec fn holds(info: SectionModel, x: XorName) -> bool {
    exists|id: PublicId| #[trigger] info.members.contains(id) && id.xor_name() == x
}

/// A member of our section or of a neighbouring one has the name.
pub open spec fn is_known(m: ChainModel, x: XorName) -> bool {
    ||| holds(m.state.our_infos.last().0, x)
    ||| exists|p: Prefix| #[trigger]
        m.neighbours.dom().contains(p) && holds(m.neighbours[p].sec_info, x)
}

/// The names in a section are those of its members.
pub proof fn names_are_held(info: SectionModel)
    ensures
        forall|x: XorName| #[trigger] info.names().contains(x) <==> holds(info, x),
{
    let f = |id: PublicId| id.xor_name();
    assert forall|x: XorName| #[trigger] info.names().contains(x) <==> holds(info, x) by {
        if info.names().contains(x) {
            let id = choose|id: PublicId| info.members.contains(id) && f(id) == x;
            assert(info.members.contains(id) && id.xor_name() == x);
        }
        if holds(info, x) {
            let id = choose|id: PublicId| #[trigger]
                info.members.contains(id) && id.xor_name() == x;
            assert(f(id) == x);
        }
    }
}

/// The sections that are listed, ours at the end, are our own with its latest confirmed description
/// and each neighbour with what is known of it, each of them once.
pub proof fn all_sections_are_listed(m: ChainModel)
    requires
        m.valid(),
    ensures
        m.all_prefixes().no_duplicates(),
        m.all_prefixes().len() > 0,
        m.all_prefixes().last() == m.state.our_infos.last().0.prefix,
        forall|p: Prefix| #[trigger]
            m.all_prefixes().contains(p) <==> p == m.state.our_infos.last().0.prefix
                || m.neighbours.dom().contains(p),
        m.section(m.state.our_infos.last().0.prefix) == m.state.our_infos.last().0,
        forall|p: Prefix| #[trigger]
            m.neighbours.dom().contains(p) ==> m.section(p) == m.neighbours[p].sec_info,
{
    all_prefixes_contains(m);
    m.neighbours_are_others();
}

proof fn known_is_in_section(m: ChainModel, x: XorName)
    requires
        m.valid(),
    ensures
        is_known(m, x) <==> exists|p: Prefix| #[trigger]
            m.knows(p) && m.section(p).names().contains(x),
{
    all_sections_are_listed(m);
    if is_known(m, x) {
        if holds(m.state.our_infos.last().0, x) {
            names_are_held(m.our_info());
            assert(m.knows(m.our_prefix()) && m.section(m.our_prefix()).names().contains(x));
        } else {
            let p = choose|p: Prefix| #[trigger]
                m.neighbours.dom().contains(p) && holds(m.neighbours[p].sec_info, x);
            names_are_held(m.neighbours[p].sec_info);
            assert(m.knows(p) && m.section(p).names().contains(x));
        }
    }
    if exists|p: Prefix| #[trigger] m.knows(p) && m.section(p).names().contains(x) {
        let p = choose|p: Prefix| #[trigger] m.knows(p) && m.section(p).names().contains(x);
        names_are_held(m.section(p));
    }
}

/// Sorting by the distance keeps a sequence without duplicates that way.
proof fn by_distance_distinct(s: Seq<XorName>, t: XorName)
    requires
        s.no_duplicates(),
    ensures
        by_distance(s, t).no_duplicates(),
{
    by_distance_contains(s, t);
    s.lemma_multiset_has_no_duplicates();
    by_distance(s, t).lemma_multiset_has_no_duplicates_conv();
}

proof fn names_near_distinct(m: ChainModel, sections: Seq<Prefix>, name: XorName)
    requires
        m.valid(),
        tidy(m),
        forall|p: Prefix| #[trigger] sections.contains(p) ==> m.knows(p),
        sections.no_duplicates(),
    ensures
        m.names_near(sections, name).no_duplicates(),
    decreases sections.len(),
{
    if sections.len() > 0 {
        let rest = sections.drop_last();
        let p = sections.last();
        let n = sections.len() - 1;
        assert(sections =~= rest.push(p));
        push_contains(rest, p);
        assert forall|q: Prefix| #[trigger] rest.contains(q) implies m.knows(q) by {
            assert(sections.contains(q));
        }
        names_near_distinct(m, rest, name);
        names_near_contains(m, rest, name);
        assert(sections.contains(p));
        section_valid(m, p);
        names_finite(m.section(p));
        names_in_contains(m, p);
        sorted_props::<XorName>(m.section(p).names());
        by_distance_contains(m.names_in(p), name);
        by_distance_distinct(m.names_in(p), name);
        let a = m.names_near(rest, name);
        let b = by_distance(m.names_in(p), name);
        assert forall|i: int, j: int| 0 <= i < a.len() && 0 <= j < b.len() implies a[i] != b[j] by {
            if a[i] == b[j] {
                let x = a[i];
                assert(a.contains(x));
                assert(b.contains(b[j]));
                let q = choose|q: Prefix| #[trigger]
                    rest.contains(q) && m.section(q).names().contains(x);
                let k = choose|k: int| 0 <= k < rest.len() && rest[k] == q;
                assert(sections[k] == q && sections[k] != sections[n]);
                assert(m.knows(q) && m.knows(p));
                known_do_not_overlap(m, q, p);
                let (u, v) = (q.bits(), p.bits());
                assert(q.covers(x) && p.covers(x));
                assert(begins(u, v) || begins(v, u)) by {
                    if u.len() <= v.len() {
                        assert forall|i: int| 0 <= i < u.len() implies u[i] == v[i] by {
                            assert(u[i] == x.bits()[i] && v[i] == x.bits()[i]);
                        }
                    } else {
                        assert forall|i: int| 0 <= i < v.len() implies v[i] == u[i] by {
                            assert(u[i] == x.bits()[i] && v[i] == x.bits()[i]);
                        }
                    }
                }
            }
        }
    }
}

/// All known names that we are connected to, in the order of their distances.
proof fn connected_in_order(m: ChainModel, name: XorName, peers: Set<XorName>) -> (near: Seq<XorName>)
    requires
        m.valid(),
        tidy(m),
    ensures
        near == only(m.names_near(by_distance(m.all_prefixes(), name), name), peers),
        near.no_duplicates(),
        is_by_distance(near, name),
        forall|x: XorName| #[trigger] near.contains(x) <==> is_known(m, x) && peers.contains(x),
{
    let order = by_distance(m.all_prefixes(), name);
    order_props(m, name);
    names_near_sorted(m, order, name);
    names_near_contains(m, order, name);
    names_near_distinct(m, order, name);
    let all = m.names_near(order, name);
    only_keeps_order(all, peers, name);
    only_contains(all, peers);
    only_distinct(all, peers);
    assert forall|x: XorName| #[trigger] only(all, peers).contains(x) <==> is_known(m, x)
        && peers.contains(x) by {
        known_is_in_section(m, x);
        if all.contains(x) {
            let p = choose|p: Prefix| #[trigger]
                order.contains(p) && m.section(p).names().contains(x);
            assert(m.knows(p));
        }
        if exists|p: Prefix| #[trigger] m.knows(p) && m.section(p).names().contains(x) {
            let p = choose|p: Prefix| #[trigger] m.knows(p) && m.section(p).names().contains(x);
            assert(order.contains(p));
        }
    }
    only(all, peers)
}

/// The closest names are as many as were asked for, each of them once, or else all known ones that we
/// are connected to. Nobody who is left out is nearer than any of them.
pub proof fn closest_names_are_enough(
    m: ChainModel,
    name: XorName,
    count: usize,
    peers: Set<XorName>,
)
    requires
        m.valid(),
        tidy(m),
    ensures
        ({
            let closest = m.closest_known(name, count, peers);
            &&& closest.no_duplicates()
            &&& closest.len() <= count
            &&& forall|x: XorName| #[trigger]
                closest.contains(x) ==> is_known(m, x) && peers.contains(x)
            &&& closest.len() < count ==> forall|x: XorName|
                is_known(m, x) && peers.contains(x) ==> #[trigger] closest.contains(x)
            &&& forall|x: XorName, y: XorName|
                #![trigger closest.contains(x), closest.contains(y)]
                closest.contains(y) && !closest.contains(x) && is_known(m, x) && peers.contains(x)
                    ==> nearer(name.bits(), y.bits(), x.bits())
            &&& forall|i: int, j: int|
                0 <= i < j < closest.len() ==> #[trigger] nearer(
                    name.bits(),
                    closest[i].bits(),
                    closest[j].bits(),
                )
        }),
{
    let near = connected_in_order(m, name, peers);
    let closest = m.closest_known(name, count, peers);
    assert forall|i: int, j: int| 0 <= i < j < near.len() implies #[trigger] nearer(
        name.bits(),
        near[i].bits(),
        near[j].bits(),
    ) by {
        strictly_nearer(near, name, i, j);
    }
    assert forall|x: XorName| #[trigger] closest.contains(x) implies near.contains(x) by {
        let i = choose|i: int| 0 <= i < closest.len() && closest[i] == x;
        assert(near[i] == x);
    }
    assert forall|x: XorName, y: XorName|
        #![trigger closest.contains(x), closest.contains(y)]
        closest.contains(y) && !closest.contains(x) && is_known(m, x) && peers.contains(
            x,
        ) implies nearer(name.bits(), y.bits(), x.bits()) by {
        assert(near.contains(x));
        let i = choose|i: int| 0 <= i < near.len() && near[i] == x;
        let j = choose|j: int| 0 <= j < closest.len() && closest[j] == y;
        if i < closest.len() {
            assert(closest[i] == x);
        }
        assert(near[j] == y);
        assert(nearer(name.bits(), near[j].bits(), near[i].bits()));
    }
    assert forall|i: int, j: int| 0 <= i < j < closest.len() implies #[trigger] nearer(
        name.bits(),
        closest[i].bits(),
        closest[j].bits(),
    ) by {
        assert(nearer(name.bits(), near[i].bits(), near[j].bits()));
    }
}

proof fn strictly_nearer(s: Seq<XorName>, t: XorName, i: int, j: int)
    requires
        s.no_duplicates(),
        is_by_distance(s, t),
        0 <= i < j < s.len(),
    ensures
        nearer(t.bits(), s[i].bits(), s[j].bits()),
{
    assert(not_farther(t.bits(), Placed::place(&s[i]), Placed::place(&s[j])));
    if s[i].bits() == s[j].bits() {
        XorName::bits_injective(s[i], s[j]);
    }
    nearer_total(t.bits(), s[i].bits(), s[j].bits());
}

/// The known nodes that we are connected to and that are nearer to a name than we are.
pub open spec fn nearer_peers(m: ChainModel, name: XorName, peers: Set<XorName>) -> Set<XorName> {
    Set::new(
        |x: XorName|
            is_known(m, x) && peers.contains(x) && nearer(
                name.bits(),
                x.bits(),
                m.our_name().bits(),
            ),
    )
}

proof fn close_if_few_are_nearer(m: ChainModel, name: XorName, count: usize, peers: Set<XorName>)
    requires
        m.valid(),
        tidy(m),
    ensures
        m.is_close(name, count, peers) <==> is_known(m, m.our_name()) && peers.contains(
            m.our_name(),
        ) && nearer_peers(m, name, peers).len() < count,
        nearer_peers(m, name, peers).finite(),
{
    let near = connected_in_order(m, name, peers);
    let closest = m.closest_known(name, count, peers);
    let ours = m.our_name();
    let ahead = nearer_peers(m, name, peers);
    assert(ahead.subset_of(near.to_set())) by {
        assert forall|x: XorName| #[trigger] ahead.contains(x) implies near.to_set().contains(x) by {
            assert(near.contains(x));
        }
    }
    vstd::set_lib::lemma_len_subset(ahead, near.to_set());
    if near.contains(ours) {
        let i = choose|i: int| 0 <= i < near.len() && near[i] == ours;
        let before = near.take(i);
        assert(before.to_set() =~= ahead) by {
            assert forall|x: XorName| #[trigger] before.contains(x) <==> ahead.contains(x) by {
                if before.contains(x) {
                    let k = choose|k: int| 0 <= k < before.len() && before[k] == x;
                    assert(near[k] == x);
                    assert(near.contains(x));
                    strictly_nearer(near, name, k, i);
                }
                if ahead.contains(x) {
                    assert(near.contains(x));
                    let k = choose|k: int| 0 <= k < near.len() && near[k] == x;
                    if k > i {
                        strictly_nearer(near, name, i, k);
                        nearer_asymmetric(name.bits(), ours.bits(), x.bits());
                    } else if k == i {
                        nearer_asymmetric(name.bits(), ours.bits(), ours.bits());
                    }
                    assert(before[k] == x);
                }
            }
        }
        assert(before.no_duplicates());
        before.unique_seq_to_set();
        assert(ahead.len() == i);
        if i < count {
            assert(closest[i] == ours);
        } else if closest.contains(ours) {
            let k = choose|k: int| 0 <= k < closest.len() && closest[k] == ours;
            assert(near[k] == ours && near[i] == ours);
        }
    } else {
        if closest.contains(ours) {
            let k = choose|k: int| 0 <= k < closest.len() && closest[k] == ours;
            assert(near[k] == ours);
        }
    }
}

/// We are a part of a group exactly if we are one of the nodes closest to its name, as many as a
/// section needs: we are known and connected, and fewer than that are nearer. The closest names are
/// given out in the same case.
pub proof fn group_is_the_closest_nodes(
    m: ChainModel,
    auth: Authority,
    name: XorName,
    peers: Set<XorName>,
)
    requires
        m.valid(),
        tidy(m),
        is_for_group(auth, name),
        auth != Authority::Section(name),
    ensures
        m.is_in(auth, peers) <==> is_known(m, m.our_name()) && peers.contains(m.our_name())
            && nearer_peers(m, name, peers).len() < m.min_sec_size,
        nearer_peers(m, name, peers).finite(),
{
    close_if_few_are_nearer(m, name, m.min_sec_size, peers);
}

/// Where enough known and connected nodes are nearer to a name than we are, we are not a part of its
/// groups.
pub proof fn far_node_is_not_in_group(
    m: ChainModel,
    auth: Authority,
    name: XorName,
    peers: Set<XorName>,
)
    requires
        m.valid(),
        tidy(m),
        is_for_group(auth, name),
        auth != Authority::Section(name),
        nearer_peers(m, name, peers).len() >= m.min_sec_size,
    ensures
        !m.is_in(auth, peers),
{
    group_is_the_closest_nodes(m, auth, name, peers);
}

/// The closest names are given out exactly if we are one of them.
pub proof fn closest_names_hold_us(
    m: ChainModel,
    name: XorName,
    count: usize,
    peers: Set<XorName>,
)
    requires
        m.valid(),
        tidy(m),
    ensures
        m.is_close(name, count, peers) <==> m.closest_known(name, count, peers).contains(
            m.our_name(),
        ),
        m.is_close(name, count, peers) <==> is_known(m, m.our_name()) && peers.contains(
            m.our_name(),
        ) && nearer_peers(m, name, peers).len() < count,
{
    close_if_few_are_nearer(m, name, count, peers);
}

/// A node is an authority on its own, and clients never are a part of one.
pub proof fn own_node_authority(m: ChainModel, auth: Authority, peers: Set<XorName>)
    ensures
        auth matches Authority::ManagedNode(name) ==> (m.is_in(auth, peers) <==> name
            == m.our_id.xor_name()),
        auth is Client ==> !m.is_in(auth, peers),
{
}

/// Our section is the authority for the names that begin with its prefix.
pub proof fn own_section_authority(m: ChainModel, name: XorName, peers: Set<XorName>)
    requires
        m.our_prefix().bits().len() <= 256,
    ensures
        m.is_in(Authority::Section(name), peers) <==> (forall|i: int|
            0 <= i < m.our_prefix().bits().len() ==> #[trigger] m.our_prefix().bits()[i]
                == name.bits()[i]),
{
}

/// Our section is a part of the authority for the prefixes that its own agrees with as far as both
/// go.
pub proof fn own_prefix_authority(m: ChainModel, prefix: Prefix, peers: Set<XorName>)
    ensures
        m.is_in(Authority::PrefixSection(prefix), peers) <==> (forall|i: int|
            0 <= i < m.our_prefix().bits().len() && i < prefix.bits().len()
                ==> #[trigger] m.our_prefix().bits()[i] == prefix.bits()[i]),
{
    let (p, q) = (m.our_prefix().bits(), prefix.bits());
    if begins(q, p) {
        assert forall|i: int| 0 <= i < p.len() && i < q.len() implies #[trigger] p[i] == q[i] by {
            assert(q[i] == p[i]);
        }
    }
    if forall|i: int| 0 <= i < p.len() && i < q.len() ==> #[trigger] p[i] == q[i] {
        if p.len() <= q.len() {
            assert(begins(p, q));
        } else {
            assert forall|i: int| 0 <= i < q.len() implies q[i] == p[i] by {
                assert(p[i] == q[i]);
            }
            assert(begins(q, p));
        }
    }
}

/// We are connected to a third of the section with that prefix at least.
pub open spec fn can_reach(m: ChainModel, p: Prefix, peers: Set<XorName>) -> bool {
    3 * m.section(p).names().intersect(peers).len() >= m.section(p).names().len()
}

proof fn reachable_is_can_reach(m: ChainModel, p: Prefix, peers: Set<XorName>)
    requires
        m.valid(),
        m.knows(p),
    ensures
        m.is_reachable(p, peers) == can_reach(m, p, peers),
        only(m.names_in(p), peers).no_duplicates(),
        only(m.names_in(p), peers).to_set() == m.section(p).names().intersect(peers),
{
    section_valid(m, p);
    names_finite(m.section(p));
    let names = m.section(p).names();
    sorted_props::<XorName>(names);
    names_in_contains(m, p);
    only_contains(m.names_in(p), peers);
    only_distinct(m.names_in(p), peers);
    let s = only(m.names_in(p), peers);
    assert(s.to_set() =~= names.intersect(peers)) by {
        assert forall|x: XorName| #[trigger] s.contains(x) <==> names.intersect(peers).contains(
            x,
        ) by {
            assert(m.names_in(p).contains(x) <==> names.contains(x));
        }
    }
    s.unique_seq_to_set();
}

proof fn prefixes_near_props(m: ChainModel, name: XorName)
    requires
        m.valid(),
    ensures
        forall|p: Prefix| #[trigger] m.prefixes_near(name).contains(p) <==> m.knows(p),
        is_by_distance(m.prefixes_near(name), name),
{
    let s = seq![m.our_prefix()] + m.keys();
    by_distance_contains(s, name);
    by_distance_sorted(s, name);
    assert forall|p: Prefix| #[trigger] s.contains(p) <==> m.knows(p) by {
        concat_contains(seq![m.our_prefix()], m.keys(), p);
        assert(seq![m.our_prefix()].contains(p) <==> p == m.our_prefix()) by {
            assert(seq![m.our_prefix()][0] == m.our_prefix());
        }
        assert(m.keys().to_set().contains(p) == m.neighbours.dom().contains(p));
    }
}

/// A message that is sent on goes to the section nearest to its target of which we are connected to a
/// third at least: to all those of its nodes, but us, the nearest ones first. A third of the section,
/// rounded up, should get it.
pub proof fn nearest_reachable_section_gets_message(
    m: ChainModel,
    target: XorName,
    peers: Set<XorName>,
    p: Prefix,
)
    requires
        m.valid(),
        m.knows(p),
        can_reach(m, p, peers),
        forall|q: Prefix| #[trigger]
            m.knows(q) && q != p && can_reach(m, q, peers) ==> nearer(
                target.bits(),
                p.bits(),
                q.bits(),
            ),
    ensures
        m.next_hops(target, peers) matches Ok(x) && {
            &&& x.0.no_duplicates()
            &&& forall|n: XorName| #[trigger]
                x.0.contains(n) <==> holds(m.section(p), n) && peers.contains(n) && n != m.our_name()
            &&& forall|i: int, j: int|
                0 <= i < j < x.0.len() ==> #[trigger] nearer(
                    target.bits(),
                    x.0[i].bits(),
                    x.0[j].bits(),
                )
            &&& 3 * x.1 >= m.section(p).names().len()
            &&& 3 * x.1 < m.section(p).names().len() + 3
        },
{
    let s = m.prefixes_near(target);
    let f = |q: Prefix| m.is_reachable(q, peers);
    prefixes_near_props(m, target);
    reachable_is_can_reach(m, p, peers);
    assert(s.contains(p));
    let k = choose|k: int| 0 <= k < s.len() && s[k] == p;
    find_first_props(s, f);
    assert(f(s[k]));
    let i = find_first_position(s, f);
    if s[i] != p {
        let q = s[i];
        assert(s.contains(q));
        assert(m.knows(q));
        reachable_is_can_reach(m, q, peers);
        assert(i <= k);
        assert(not_farther(target.bits(), Placed::place(&s[i]), Placed::place(&s[k])));
    }
    let near = only(m.names_in(p), peers);
    let hops = without(by_distance(near, target), m.our_name());
    names_are_held(m.section(p));
    by_distance_contains(near, target);
    by_distance_distinct(near, target);
    by_distance_sorted(near, target);
    only_contains(by_distance(near, target), all_but(m.our_name()));
    only_distinct(by_distance(near, target), all_but(m.our_name()));
    only_keeps_order(by_distance(near, target), all_but(m.our_name()), target);
    assert forall|n: XorName| #[trigger] hops.contains(n) <==> holds(m.section(p), n)
        && peers.contains(n) && n != m.our_name() by {
        assert(near.to_set().contains(n) == near.contains(n));
        assert(m.section(p).names().contains(n) == holds(m.section(p), n));
    }
    assert forall|i: int, j: int| 0 <= i < j < hops.len() implies #[trigger] nearer(
        target.bits(),
        hops[i].bits(),
        hops[j].bits(),
    ) by {
        strictly_nearer(hops, target, i, j);
    }
}

/// Where we are connected to less than a third of each section that we know, a message cannot be sent
/// on.
pub proof fn no_reachable_section(m: ChainModel, target: XorName, peers: Set<XorName>)
    requires
        m.valid(),
        forall|q: Prefix| #[trigger] m.knows(q) ==> !can_reach(m, q, peers),
    ensures
        m.next_hops(target, peers) == Err::<(Seq<XorName>, nat), Error>(Error::CannotRoute),
{
    let s = m.prefixes_near(target);
    let f = |q: Prefix| m.is_reachable(q, peers);
    prefixes_near_props(m, target);
    find_first_props(s, f);
    if find_first(s, f) is Some {
        let i = find_first_position(s, f);
        assert(s.contains(s[i]));
        reachable_is_can_reach(m, s[i], peers);
    }
}

/// The destination is the single node with that name, or a client behind it.
pub open spec fn is_for_node(dst: Authority, name: XorName) -> bool {
    ||| dst == Authority::ManagedNode(name)
    ||| dst matches Authority::Client { client_id, proxy_node_name } && proxy_node_name == name
}

/// A message to us goes nowhere. One to a node that we are connected to, in the section that its name
/// belongs to, goes to that node alone, and one to any other node is sent on.
pub proof fn single_node_gets_message(
    m: ChainModel,
    dst: Authority,
    name: XorName,
    peers: Set<XorName>,
    p: Prefix,
)
    requires
        m.valid(),
        separate(m),
        is_for_node(dst, name),
    ensures
        name == m.our_id.xor_name() ==> m.targets_of(dst, peers) == Ok::<(Seq<XorName>, nat), Error>(
            (Seq::empty(), 0),
        ),
        name != m.our_id.xor_name() && peers.contains(name) && m.knows(p) && p.covers(name)
            && holds(m.section(p), name) ==> m.targets_of(dst, peers) == Ok::<
            (Seq<XorName>, nat),
            Error,
        >((seq![name], 1)),
        name != m.our_id.xor_name() && (!peers.contains(name) || !is_known(m, name))
            ==> m.targets_of(dst, peers) == m.next_hops(name, peers),
{
    all_sections_are_listed(m);
    let f = |q: Prefix| q.covers(name);
    find_first_least::<Prefix>(m.neighbours.dom(), f);
    names_are_held(m.our_info());
    if m.our_prefix().covers(name) {
        if m.knows(p) && p.covers(name) && p != m.our_prefix() {
            assert(m.neighbours.dom().contains(p));
            adjoining_do_not_overlap(m.our_prefix(), p);
            covers_overlap(m.our_prefix(), p, name);
        }
    } else {
        let found = find_first(m.keys(), f);
        if found is Some {
            let x = found->0;
            assert(m.neighbours.dom().contains(x) && f(x));
            names_are_held(m.neighbours[x].sec_info);
            if m.knows(p) && p.covers(name) && p != x {
                assert(m.neighbours.dom().contains(p));
                covers_overlap(x, p, name);
            }
        } else if m.knows(p) && p.covers(name) {
            assert(m.neighbours.dom().contains(p));
            assert(f(p));
        }
    }
}

proof fn covers_overlap(p: Prefix, q: Prefix, name: XorName)
    requires
        p.covers(name),
        q.covers(name),
    ensures
        p.compatible(q),
{
    let (u, v) = (p.bits(), q.bits());
    if u.len() <= v.len() {
        assert forall|i: int| 0 <= i < u.len() implies u[i] == v[i] by {
            assert(u[i] == name.bits()[i] && v[i] == name.bits()[i]);
        }
    } else {
        assert forall|i: int| 0 <= i < v.len() implies v[i] == u[i] by {
            assert(u[i] == name.bits()[i] && v[i] == name.bits()[i]);
        }
    }
}

/// A message to the sections under a prefix that does not overlap with ours is sent on towards the
/// lowest name under it.
pub proof fn foreign_prefix_is_routed(m: ChainModel, prefix: Prefix, peers: Set<XorName>, n: XorName)
    requires
        prefix.inv(),
        exists|i: int|
            0 <= i < m.our_prefix().bits().len() && i < prefix.bits().len()
                && #[trigger] m.our_prefix().bits()[i] != prefix.bits()[i],
        prefix.covers(n),
        forall|i: int| prefix.bits().len() <= i < 256 ==> !#[trigger] n.bits()[i],
    ensures
        m.targets_of(Authority::PrefixSection(prefix), peers) == m.next_hops(n, peers),
{
    let k = prefix.lowest_name();
    assert(prefix.is_lowest_name(n));
    assert(prefix.is_lowest_name(k));
    assert(n.bits() =~= k.bits()) by {
        assert forall|i: int| 0 <= i < 256 implies n.bits()[i] == k.bits()[i] by {
            if i < prefix.bits().len() {
                assert(prefix.bits()[i] == n.bits()[i] && prefix.bits()[i] == k.bits()[i]);
            }
        }
    }
    XorName::bits_injective(n, k);
}

/// The other nodes that we know: the members of our section and of our neighbours, without us.
pub open spec fn others(m: ChainModel) -> Set<PublicId> {
    Set::new(
        |id: PublicId|
            id != m.our_id && (m.state.our_infos.last().0.members.contains(id) || exists|p: Prefix|
                #[trigger]
                m.neighbours.dom().contains(p) && m.neighbours[p].sec_info.members.contains(id)),
    )
}

/// Where nobody is a member of two sections, the size of the table is the number of the other nodes
/// that we know.
pub proof fn size_is_number_of_others(m: ChainModel)
    requires
        m.valid(),
        disjoint_sections(m),
    ensures
        m.size() == others(m).len(),
{
    size_counts_others(m);
    all_sections_are_listed(m);
    let all = members_of(m, m.all_prefixes());
    assert forall|id: PublicId| #[trigger] all.remove(m.our_id).contains(id) <==> others(m).contains(
        id,
    ) by {
        if all.contains(id) {
            let p = choose|p: Prefix| #[trigger]
                m.all_prefixes().contains(p) && m.section(p).members.contains(id);
            assert(p == m.our_prefix() || m.neighbours.dom().contains(p));
        }
        if m.state.our_infos.last().0.members.contains(id) {
            assert(m.all_prefixes().contains(m.our_prefix()));
        }
        if exists|p: Prefix| #[trigger]
            m.neighbours.dom().contains(p) && m.neighbours[p].sec_info.members.contains(id) {
            let p = choose|p: Prefix| #[trigger]
                m.neighbours.dom().contains(p) && m.neighbours[p].sec_info.members.contains(id);
            assert(m.all_prefixes().contains(p));
        }
    }
    assert(all.remove(m.our_id) =~= others(m));
}

/// A node is a valid peer exactly if it is a member of our section, as it is confirmed or about to
/// become, or of a neighbouring one.
pub proof fn valid_peers_are_members(m: ChainModel, id: PublicId)
    ensures
        m.knows_peer(id) <==> {
            ||| m.state.our_infos.last().0.members.contains(id)
            ||| m.state.new_info.members.contains(id)
            ||| exists|p: Prefix| #[trigger]
                m.neighbours.dom().contains(p) && m.neighbours[p].sec_info.members.contains(id)
        },
{
}

/// The closest section has members if any known one has, and no known one with members is nearer.
pub proof fn closest_section_is_nearest(m: ChainModel, p: Prefix, name: XorName, q: Prefix, id: PublicId)
    requires
        m.valid(),
        m.is_closest_prefix(p, name),
        q == m.our_prefix() || m.neighbours.dom().contains(q),
        m.section(q).members.contains(id),
    ensures
        p == m.our_prefix() || m.neighbours.dom().contains(p),
        exists|x: PublicId| m.section(p).members.contains(x),
        p == q || nearer(name.bits(), p.bits(), q.bits()),
{
    assert(m.is_inhabited(q));
    assert(m.is_inhabited(p));
    let members = m.section(p).members;
    assert(exists|x: PublicId| members.contains(x)) by {
        if forall|x: PublicId| !members.contains(x) {
            assert(members =~= Set::<PublicId>::empty());
        }
    }
    section_valid(m, p);
    section_valid(m, q);
    if p != q {
        if p.bits() == q.bits() {
            Prefix::bits_injective(p, q);
        }
        nearer_total(name.bits(), p.bits(), q.bits());
    }
}

/// The shortest prefix is a known one, none is shorter, and ours is favoured.
pub proof fn shortest_prefix_is_known(m: ChainModel, p: Prefix, q: Prefix)
    requires
        m.is_min_len_prefix(p),
        q == m.our_prefix() || m.neighbours.dom().contains(q),
    ensures
        p == m.our_prefix() || m.neighbours.dom().contains(p),
        p.bits().len() <= q.bits().len(),
        p != m.our_prefix() ==> p.bits().len() < m.our_prefix().bits().len(),
{
}

/// The peers are exactly those that are referred to.
pub proof fn peers_are_referred_to(peers: Seq<&XorName>, n: XorName)
    ensures
        peer_names(peers).contains(n) <==> exists|i: int|
            0 <= i < peers.len() && *#[trigger] peers[i] == n,
{
    let names = peers.map_values(|n: &XorName| *n);
    if exists|i: int| 0 <= i < peers.len() && *#[trigger] peers[i] == n {
        let i = choose|i: int| 0 <= i < peers.len() && *#[trigger] peers[i] == n;
        assert(names[i] == n);
    }
    if names.contains(n) {
        let i = choose|i: int| 0 <= i < names.len() && names[i] == n;
        assert(*peers[i] == n);
    }
}

proof fn names_under_distinct(m: ChainModel, sections: Seq<Prefix>, prefix: Prefix)
    requires
        m.valid(),
        tidy(m),
        forall|p: Prefix| #[trigger] sections.contains(p) ==> m.knows(p),
        sections.no_duplicates(),
    ensures
        m.names_under(sections, prefix).no_duplicates(),
    decreases sections.len(),
{
    if sections.len() > 0 {
        let rest = sections.drop_last();
        let p = sections.last();
        let n = sections.len() - 1;
        assert(sections =~= rest.push(p));
        push_contains(rest, p);
        assert forall|q: Prefix| #[trigger] rest.contains(q) implies m.knows(q) by {
            assert(sections.contains(q));
        }
        names_under_distinct(m, rest, prefix);
        names_under_contains(m, rest, prefix);
        assert(sections.contains(p));
        section_valid(m, p);
        names_finite(m.section(p));
        names_in_contains(m, p);
        sorted_props::<XorName>(m.section(p).names());
        let a = m.names_under(rest, prefix);
        let b = m.names_in(p);
        assert forall|i: int, j: int| 0 <= i < a.len() && 0 <= j < b.len() implies a[i] != b[j] by {
            if a[i] == b[j] {
                let x = a[i];
                assert(a.contains(x));
                assert(b.contains(b[j]));
                let q = choose|q: Prefix| #[trigger]
                    rest.contains(q) && prefix.compatible(q) && m.section(q).names().contains(x);
                let k = choose|k: int| 0 <= k < rest.len() && rest[k] == q;
                assert(sections[k] == q && sections[k] != sections[n]);
                assert(m.knows(q) && m.knows(p));
                known_do_not_overlap(m, q, p);
                assert(q.covers(x) && p.covers(x));
                covers_overlap(q, p, x);
            }
        }
    }
}

/// A message to all sections under a prefix goes to each node there at most once.
pub proof fn prefix_message_is_sent_once(m: ChainModel, prefix: Prefix, peers: Set<XorName>)
    requires
        m.valid(),
        tidy(m),
        m.our_prefix().compatible(prefix),
    ensures
        m.targets_of(Authority::PrefixSection(prefix), peers) matches Ok(x) ==> x.0.no_duplicates(),
{
    compatible_symmetric(prefix, m.our_prefix());
    all_prefixes_contains(m);
    let names = m.names_under(m.all_prefixes(), prefix);
    names_under_distinct(m, m.all_prefixes(), prefix);
    only_distinct(names, peers);
    only_distinct(only(names, peers), all_but(m.our_name()));
}

} // verus!
