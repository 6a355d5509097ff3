//! Where messages are sent on to.

use crate::authority::Authority;
use crate::chain::Chain;
use crate::chain_model::{all_but, group_size, only, peer_names, without, ChainModel};
use crate::error::Error;
use crate::id::PublicId;
use crate::order::{key_less, Checked, Order};
use crate::ordered::{ascending, sorted, OrderedSet};
use crate::prefix::{covered, differ_only_at, Prefix};
use crate::section_info::SectionInfo;
use crate::seqs::{
    by_distance_contains, find_first_at, find_first_none, not_farther_transitive,
    sorted_by_distance,
};
use crate::xor_name::{nearer, nearer_asymmetric, nearer_total, not_farther, XorName};
use vstd::prelude::*;

verus! {

/// Returns the delivery group size based on the section size `n`
pub fn delivery_group_size(n: usize) -> (r: usize)
    ensures
        r == group_size(n as nat),
        3 * r >= n,
        3 * r < n + 3,
{
    // This is the least integer that is at least `n / 3`.
    if n % 3 == 0 {
        n / 3
    } else {
        n / 3 + 1
    }
}

/// Returns whether `name` is one of those that are referred to.
fn is_connected(name: &XorName, connected_peers: &[&XorName]) -> (r: bool)
    ensures
        r == peer_names(connected_peers@).contains(*name),
{
    let ghost names = connected_peers@.map_values(|n: &XorName| *n);
    let mut i: usize = 0;
    while i < connected_peers.len()
        invariant
            names == connected_peers@.map_values(|n: &XorName| *n),
            i <= names.len(),
            forall|j: int| 0 <= j < i ==> names[j] != *name,
        decreases names.len() - i,
    {
        if connected_peers[i].is(name) {
            assert(names[i as int] == *name);
            return true;
        }
        i += 1;
    }
    false
}

/// Returns those of the names that are connected.
fn connected(names: &Vec<XorName>, connected_peers: &[&XorName]) -> (r: Vec<XorName>)
    ensures
        r@ == only(names@, peer_names(connected_peers@)),
        r@.len() <= names@.len(),
{
    let ghost peers = peer_names(connected_peers@);
    let mut r: Vec<XorName> = Vec::new();
    let mut i: usize = 0;
    while i < names.len()
        invariant
            peers == peer_names(connected_peers@),
            i <= names@.len(),
            r@ == only(names@.take(i as int), peers),
            r@.len() <= i,
        decreases names@.len() - i,
    {
        assert(names@.take(i + 1).drop_last() =~= names@.take(i as int));
        if is_connected(&names[i], connected_peers) {
            r.push(names[i]);
        }
        i += 1;
    }
    assert(names@.take(i as int) =~= names@);
    r
}

/// Returns the names other than `name`.
fn others(names: &Vec<XorName>, name: &XorName) -> (r: Vec<XorName>)
    ensures
        r@ == without(names@, *name),
{
    let ghost set = all_but(*name);
    let mut r: Vec<XorName> = Vec::new();
    let mut i: usize = 0;
    while i < names.len()
        invariant
            set == all_but(*name),
            i <= names@.len(),
            r@ == only(names@.take(i as int), set),
        decreases names@.len() - i,
    {
        assert(names@.take(i + 1).drop_last() =~= names@.take(i as int));
        if !names[i].is(name) {
            r.push(names[i]);
        }
        i += 1;
    }
    assert(names@.take(i as int) =~= names@);
    r
}

/// Returns whether `name` is among the names.
fn contains_name(names: &Vec<XorName>, name: &XorName) -> (r: bool)
    ensures
        r == names@.contains(*name),
{
    let mut i: usize = 0;
    while i < names.len()
        invariant
            i <= names@.len(),
            forall|j: int| 0 <= j < i ==> names@[j] != *name,
        decreases names@.len() - i,
    {
        if names[i].is(name) {
            return true;
        }
        i += 1;
    }
    false
}

/// Returns the names of a set in ascending order.
fn listed(names: &OrderedSet<XorName>) -> (r: Vec<XorName>)
    requires
        names.inv(),
    ensures
        r@ == sorted::<XorName>(names@),
        r@.len() == names@.len(),
{
    let ghost s = names.seq();
    proof {
        names.lemma_inv();
    }
    let mut r: Vec<XorName> = Vec::new();
    let mut i: usize = 0;
    while i < names.len()
        invariant
            names.inv(),
            s == names.seq(),
            i <= s.len(),
            r@.len() == i,
            forall|j: int| 0 <= j < i ==> r@[j] == s[j],
        decreases s.len() - i,
    {
        r.push(*names.at(i));
        i += 1;
    }
    assert(r@ =~= s);
    r
}

/// Appends names.
fn append_names(names: &mut Vec<XorName>, more: &Vec<XorName>)
    ensures
        final(names)@ == old(names)@ + more@,
{
    let ghost start = names@;
    let mut i: usize = 0;
    while i < more.len()
        invariant
            i <= more@.len(),
            names@ == start + more@.take(i as int),
        decreases more@.len() - i,
    {
        names.push(more[i]);
        assert(more@.take(i as int).push(more@[i as int]) =~= more@.take(i + 1));
        i += 1;
    }
    assert(more@.take(i as int) =~= more@);
}

impl ChainModel {
    /// The prefix belongs to our section or to a neighbouring one.
    pub open spec fn knows(self, p: Prefix) -> bool {
        p == self.our_prefix() || self.neighbours.dom().contains(p)
    }

    /// No neighbour has our own prefix.
    pub proof fn neighbours_are_others(self)
        requires
            self.well_formed(),
        ensures
            !self.neighbours.dom().contains(self.our_prefix()),
    {
        let p = self.our_prefix();
        if self.neighbours.dom().contains(p) {
            assert(p.adjoins(p));
            let i = choose|i: int| differ_only_at(p.bits(), p.bits(), i);
            assert(differ_only_at(p.bits(), p.bits(), i));
        }
    }
}

impl Chain {
    /// Returns the prefixes of all known sections, ours at the end.
    fn all_prefixes(&self) -> (r: Vec<Prefix>)
        requires
            self.inv(),
        ensures
            r@ == self@.all_prefixes(),
            forall|i: int|
                0 <= i < r@.len() ==> (#[trigger] r@[i]).inv() && self@.knows(r@[i]),
    {
        let neighbours = self.neighbours();
        let ghost keys = neighbours.seq();
        proof {
            neighbours.lemma_inv();
        }
        let mut r: Vec<Prefix> = Vec::new();
        let mut i: usize = 0;
        while i < neighbours.len()
            invariant
                self.inv(),
                neighbours.inv(),
                neighbours@ == self@.neighbours,
                keys == neighbours.seq(),
                i <= keys.len(),
                r@.len() == i,
                forall|j: int|
                    0 <= j < i ==> (#[trigger] r@[j]) == keys[j] && r@[j].inv() && self@.knows(
                        r@[j],
                    ),
            decreases keys.len() - i,
        {
            r.push(*neighbours.key_at(i));
            i += 1;
        }
        assert(r@ =~= keys);
        r.push(*self.our_prefix());
        r
    }

    /// Returns the section with the given prefix.
    fn section(&self, pfx: &Prefix) -> (r: &SectionInfo)
        requires
            self.inv(),
            pfx.inv(),
            self@.knows(*pfx),
        ensures
            r.inv(),
            r@ == self@.section(*pfx),
    {
        match self.get_section(pfx) {
            Some(info) => info,
            None => self.our_info(),
        }
    }

    /// Returns the names in the section with the given prefix, in ascending order.
    fn names_in(&self, pfx: &Prefix) -> (r: Vec<XorName>)
        requires
            self.inv(),
            pfx.inv(),
            self@.knows(*pfx),
        ensures
            r@ == self@.names_in(*pfx),
            r@.len() == self@.section(*pfx).names().len(),
    {
        listed(&self.section(pfx).member_names())
    }

    /// Returns all neighbouring sections and our own, together with their prefix in the map.
    pub fn all_sections(&self) -> (r: Vec<(Prefix, &SectionInfo)>)
        requires
            self.inv(),
        ensures
            r@.len() == self@.all_prefixes().len(),
            forall|i: int|
                0 <= i < r@.len() ==> (#[trigger] r@[i]).0 == self@.all_prefixes()[i] && r@[i].1@
                    == self@.section(r@[i].0) && r@[i].0.inv() && r@[i].1.inv(),
    {
        let prefixes = self.all_prefixes();
        let mut r: Vec<(Prefix, &SectionInfo)> = Vec::new();
        let mut i: usize = 0;
        while i < prefixes.len()
            invariant
                self.inv(),
                prefixes@ == self@.all_prefixes(),
                forall|j: int|
                    0 <= j < prefixes@.len() ==> (#[trigger] prefixes@[j]).inv() && self@.knows(
                        prefixes@[j],
                    ),
                i <= prefixes@.len(),
                r@.len() == i,
                forall|j: int|
                    0 <= j < i ==> (#[trigger] r@[j]).0 == prefixes@[j] && r@[j].1@
                        == self@.section(r@[j].0) && r@[j].0.inv() && r@[j].1.inv(),
            decreases prefixes@.len() - i,
        {
            let pfx = prefixes[i];
            assert(prefixes@[i as int].inv());
            r.push((pfx, self.section(&pfx)));
            i += 1;
        }
        r
    }

    /// Finds the `count` names closest to `name` in the whole routing table.
    fn closest_known_names(&self, name: &XorName, count: usize, connected_peers: &[&XorName]) -> (r:
        Vec<XorName>)
        requires
            self.inv(),
        ensures
            r@ == self@.closest_known(*name, count, peer_names(connected_peers@)),
    {
        let prefixes = self.all_prefixes();
        let ghost all = prefixes@;
        let order = sorted_by_distance(prefixes, name);
        proof {
            by_distance_contains(all, *name);
            assert forall|i: int| 0 <= i < order@.len() implies (#[trigger] order@[i]).inv()
                && self@.knows(order@[i]) by {
                assert(order@.contains(order@[i]));
                assert(all.contains(order@[i]));
                let j = choose|j: int| 0 <= j < all.len() && all[j] == order@[i];
                assert(all[j].inv());
            }
        }
        let mut names: Vec<XorName> = Vec::new();
        let mut i: usize = 0;
        while i < order.len()
            invariant
                self.inv(),
                forall|j: int|
                    0 <= j < order@.len() ==> (#[trigger] order@[j]).inv() && self@.knows(
                        order@[j],
                    ),
                i <= order@.len(),
                names@ == self@.names_near(order@.take(i as int), *name),
            decreases order@.len() - i,
        {
            assert(order@[i as int].inv());
            let section = sorted_by_distance(self.names_in(&order[i]), name);
            assert(order@.take(i + 1).drop_last() =~= order@.take(i as int));
            append_names(&mut names, &section);
            i += 1;
        }
        assert(order@.take(i as int) =~= order@);
        let mut r = connected(&names, connected_peers);
        let ghost near = r@;
        if count < r.len() {
            r.truncate(count);
            assert(r@ =~= near.take(count as int));
        }
        r
    }

    /// Returns whether the table contains the given `name`.
    fn has(&self, name: &XorName) -> (r: bool)
        requires
            self.inv(),
        ensures
            r == self@.has_name(*name),
    {
        match self.get_section_legacy(name) {
            Some(section) => section.contains(name),
            None => false,
        }
    }

    /// Returns the section matching the given `name`, if present.
    /// Includes our own name if our prefix matches `name`.
    fn get_section_legacy(&self, name: &XorName) -> (r: Option<OrderedSet<XorName>>)
        requires
            self.inv(),
        ensures
            match r {
                Some(section) => self@.section_of(*name) matches Some(info) && section@
                    == info.names() && section.inv(),
                None => self@.section_of(*name) is None,
            },
    {
        if self.our_prefix().matches(name) {
            return Some(self.our_info().member_names());
        }
        let neighbours = self.neighbours();
        let ghost keys = neighbours.seq();
        let ghost n = *name;
        let ghost f = |p: Prefix| p.covers(n);
        proof {
            neighbours.lemma_inv();
        }
        let mut i: usize = 0;
        while i < neighbours.len()
            invariant
                self.inv(),
                !self@.our_prefix().covers(n),
                n == *name,
                neighbours.inv(),
                neighbours@ == self@.neighbours,
                keys == neighbours.seq(),
                keys == self@.keys(),
                i <= keys.len(),
                f == (|p: Prefix| p.covers(n)),
                forall|j: int| 0 <= j < i ==> !f(keys[j]),
            decreases keys.len() - i,
        {
            if neighbours.key_at(i).matches(name) {
                proof {
                    find_first_at(keys, f, i as int);
                }
                return Some(neighbours.value_at(i).sec_info().member_names());
            }
            i += 1;
        }
        proof {
            find_first_none(keys, f);
        }
        None
    }

    /// If our section is the closest one to `name`, returns all names in our section *including
    /// ours*, otherwise returns `None`.
    pub fn close_names(&self, name: &XorName) -> (r: Option<Vec<XorName>>)
        requires
            self.inv(),
        ensures
            match r {
                Some(names) => {
                    &&& self@.our_prefix().covers(*name)
                    &&& names@ == sorted::<PublicId>(self@.our_info().members).map_values(
                        |id: PublicId| id.xor_name(),
                    )
                },
                None => !self@.our_prefix().covers(*name),
            },
    {
        if !self.our_prefix().matches(name) {
            return None;
        }
        let members = self.our_info().members();
        let ghost s = members.seq();
        proof {
            members.lemma_inv();
        }
        let mut names: Vec<XorName> = Vec::new();
        let mut i: usize = 0;
        while i < members.len()
            invariant
                members.inv(),
                s == members.seq(),
                i <= s.len(),
                names@.len() == i,
                forall|j: int| 0 <= j < i ==> names@[j] == s[j].xor_name(),
            decreases s.len() - i,
        {
            names.push(*members.at(i).name());
            i += 1;
        }
        assert(names@ =~= s.map_values(|id: PublicId| id.xor_name()));
        Some(names)
    }

    /// If our section is the closest one to `name`, returns all names in our section *excluding
    /// ours*, otherwise returns `None`.
    pub fn other_close_names(&self, name: &XorName) -> (r: Option<OrderedSet<XorName>>)
        requires
            self.inv(),
        ensures
            match r {
                Some(names) => {
                    &&& self@.our_prefix().covers(*name)
                    &&& names@ == self@.our_info().names().remove(self@.our_name())
                    &&& names.inv()
                },
                None => !self@.our_prefix().covers(*name),
            },
    {
        if self.our_prefix().matches(name) {
            let mut section = self.our_info().member_names();
            let _ = section.remove(self.our_id().name());
            Some(section)
        } else {
            None
        }
    }

    /// Returns the `count` closest entries to `name` in the routing table, including our own name,
    /// sorted by ascending distance to `name`. If we are not close, returns `None`.
    pub fn closest_names(&self, name: &XorName, count: usize, connected_peers: &[&XorName]) -> (r:
        Option<Vec<XorName>>)
        requires
            self.inv(),
        ensures
            match r {
                Some(names) => {
                    &&& self@.is_close(*name, count, peer_names(connected_peers@))
                    &&& names@ == self@.closest_known(*name, count, peer_names(connected_peers@))
                },
                None => !self@.is_close(*name, count, peer_names(connected_peers@)),
            },
    {
        let result = self.closest_known_names(name, count, connected_peers);
        if contains_name(&result, self.our_id().name()) {
            Some(result)
        } else {
            None
        }
    }

    /// Returns the `count-1` closest entries to `name` in the routing table, excluding
    /// our own name, sorted by ascending distance to `name` -  or `None`, if our name
    /// isn't among `count` names closest to `name`.
    pub fn other_closest_names(
        &self,
        name: &XorName,
        count: usize,
        connected_peers: &[&XorName],
    ) -> (r: Option<Vec<XorName>>)
        requires
            self.inv(),
        ensures
            match r {
                Some(names) => {
                    &&& self@.is_close(*name, count, peer_names(connected_peers@))
                    &&& names@ == without(
                        self@.closest_known(*name, count, peer_names(connected_peers@)),
                        self@.our_name(),
                    )
                },
                None => !self@.is_close(*name, count, peer_names(connected_peers@)),
            },
    {
        match self.closest_names(name, count, connected_peers) {
            Some(result) => Some(others(&result, self.our_id().name())),
            None => None,
        }
    }

    /// Returns the prefix of the closest non-empty section to `name`, regardless of whether `name`
    /// belongs in that section or not, and the section itself. If all sections are empty, these are
    /// our own ones.
    pub fn closest_section(&self, name: &XorName) -> (r: (Prefix, OrderedSet<XorName>))
        requires
            self.inv(),
        ensures
            r.0.inv(),
            r.1.inv(),
            self@.is_closest_prefix(r.0, *name),
            r.1@ == self@.section(r.0).names(),
    {
        let ghost t = name.bits();
        let ghost m = self@;
        let neighbours = self.neighbours();
        let ghost keys = neighbours.seq();
        proof {
            neighbours.lemma_inv();
            self.lemma_inv();
            m.neighbours_are_others();
        }
        let mut best_pfx = *self.our_prefix();
        let mut best_si = self.our_info();
        let mut found = !best_si.members().is_empty();
        proof {
            if !not_farther(t, best_pfx.bits(), best_pfx.bits()) {
                nearer_asymmetric(t, best_pfx.bits(), best_pfx.bits());
            }
        }
        let mut i: usize = 0;
        while i < neighbours.len()
            invariant
                self.inv(),
                m == self@,
                t == name.bits(),
                !m.neighbours.dom().contains(m.our_prefix()),
                neighbours.inv(),
                neighbours@ == m.neighbours,
                keys == neighbours.seq(),
                i <= keys.len(),
                best_pfx.inv(),
                best_si.inv(),
                best_si@ == m.section(best_pfx),
                found == m.is_inhabited(best_pfx),
                !found ==> best_pfx == m.our_prefix(),
                m.is_inhabited(m.our_prefix()) ==> found && not_farther(
                    t,
                    best_pfx.bits(),
                    m.our_prefix().bits(),
                ),
                forall|j: int| 0 <= j < i && m.is_inhabited(#[trigger] keys[j]) ==> found,
                forall|j: int|
                    0 <= j < i && m.is_inhabited(#[trigger] keys[j]) ==> not_farther(
                        t,
                        best_pfx.bits(),
                        keys[j].bits(),
                    ),
            decreases keys.len() - i,
        {
            let pfx = *neighbours.key_at(i);
            let info = neighbours.value_at(i).sec_info();
            let ghost old_best = best_pfx;
            let mut better = false;
            if !info.members().is_empty() {
                if !found {
                    better = true;
                } else if let Order::Greater = best_pfx.order_distance(&pfx, name) {
                    better = true;
                }
            }
            if better {
                proof {
                    if found {
                        nearer_total(t, pfx.bits(), old_best.bits());
                        nearer_asymmetric(t, pfx.bits(), old_best.bits());
                        if m.is_inhabited(m.our_prefix()) {
                            not_farther_transitive(
                                t,
                                pfx.bits(),
                                old_best.bits(),
                                m.our_prefix().bits(),
                            );
                        }
                        assert forall|j: int|
                            0 <= j < i && m.is_inhabited(#[trigger] keys[j]) implies not_farther(
                            t,
                            pfx.bits(),
                            keys[j].bits(),
                        ) by {
                            not_farther_transitive(t, pfx.bits(), old_best.bits(), keys[j].bits());
                        }
                    }
                    if !not_farther(t, pfx.bits(), pfx.bits()) {
                        nearer_asymmetric(t, pfx.bits(), pfx.bits());
                    }
                }
                best_pfx = pfx;
                best_si = info;
                found = true;
            } else {
                proof {
                    if m.is_inhabited(pfx) {
                        if nearer(t, pfx.bits(), best_pfx.bits()) {
                            nearer_asymmetric(t, pfx.bits(), best_pfx.bits());
                        }
                    }
                }
            }
            i += 1;
        }
        proof {
            assert forall|q: Prefix| #[trigger] m.is_inhabited(q) implies found && not_farther(
                t,
                best_pfx.bits(),
                q.bits(),
            ) by {
                if q != m.our_prefix() {
                    assert(keys.to_set().contains(q));
                    let j = choose|j: int| 0 <= j < keys.len() && keys[j] == q;
                    assert(m.is_inhabited(keys[j]));
                }
            }
        }
        (best_pfx, best_si.member_names())
    }

    /// Returns the prefixes of the known sections sorted by the distance from a given XorName.
    fn closest_sections(&self, name: &XorName) -> (r: Vec<Prefix>)
        requires
            self.inv(),
        ensures
            r@ == self@.prefixes_near(*name),
            forall|i: int|
                0 <= i < r@.len() ==> (#[trigger] r@[i]).inv() && self@.knows(r@[i]),
    {
        let neighbours = self.neighbours();
        let ghost keys = neighbours.seq();
        proof {
            neighbours.lemma_inv();
        }
        let mut prefixes: Vec<Prefix> = Vec::new();
        prefixes.push(*self.our_prefix());
        let mut i: usize = 0;
        while i < neighbours.len()
            invariant
                self.inv(),
                neighbours.inv(),
                neighbours@ == self@.neighbours,
                keys == neighbours.seq(),
                i <= keys.len(),
                prefixes@.len() == i + 1,
                prefixes@[0] == self@.our_prefix(),
                prefixes@[0].inv(),
                forall|j: int|
                    1 <= j <= i ==> (#[trigger] prefixes@[j]) == keys[j - 1] && prefixes@[j].inv()
                        && self@.knows(prefixes@[j]),
            decreases keys.len() - i,
        {
            prefixes.push(*neighbours.key_at(i));
            i += 1;
        }
        let ghost all = prefixes@;
        assert(all =~= seq![self@.our_prefix()] + keys);
        assert forall|j: int| 0 <= j < all.len() implies (#[trigger] all[j]).inv() && self@.knows(
            all[j],
        ) by {}
        let r = sorted_by_distance(prefixes, name);
        proof {
            by_distance_contains(all, *name);
            assert forall|i: int| 0 <= i < r@.len() implies (#[trigger] r@[i]).inv() && self@.knows(
                r@[i],
            ) by {
                assert(r@.contains(r@[i]));
                assert(all.contains(r@[i]));
                let j = choose|j: int| 0 <= j < all.len() && all[j] == r@[i];
                assert(all[j].inv());
            }
        }
        r
    }

    /// Returns the nodes that a message to `target_name` is sent on to: those of the closest
    /// section that we are well connected to.
    fn candidates(&self, target_name: &XorName, connected_peers: &[&XorName]) -> (r: Result<
        (Vec<XorName>, usize),
        Error,
    >)
        requires
            self.inv(),
        ensures
            match r {
                Ok(x) => self@.next_hops(*target_name, peer_names(connected_peers@)) == Ok::<
                    (Seq<XorName>, nat),
                    Error,
                >((x.0@, x.1 as nat)),
                Err(e) => self@.next_hops(*target_name, peer_names(connected_peers@)) == Err::<
                    (Seq<XorName>, nat),
                    Error,
                >(e),
            },
    {
        let ghost m = self@;
        let ghost peers = peer_names(connected_peers@);
        let ghost f = |p: Prefix| m.is_reachable(p, peers);
        let order = self.closest_sections(target_name);
        let mut i: usize = 0;
        while i < order.len()
            invariant
                self.inv(),
                m == self@,
                peers == peer_names(connected_peers@),
                order@ == m.prefixes_near(*target_name),
                forall|j: int|
                    0 <= j < order@.len() ==> (#[trigger] order@[j]).inv() && self@.knows(
                        order@[j],
                    ),
                i <= order@.len(),
                f == (|p: Prefix| m.is_reachable(p, peers)),
                forall|j: int| 0 <= j < i ==> !f(order@[j]),
            decreases order@.len() - i,
        {
            assert(order@[i as int].inv());
            let names = self.names_in(&order[i]);
            let reachable = connected(&names, connected_peers);
            if reachable.len() as u128 * 3 >= names.len() as u128 {
                proof {
                    assert(f(order@[i as int]));
                    find_first_at(order@, f, i as int);
                }
                let best_section = sorted_by_distance(reachable, target_name);
                return Ok(
                    (
                        others(&best_section, self.our_id().name()),
                        delivery_group_size(names.len()),
                    ),
                );
            }
            i += 1;
        }
        proof {
            find_first_none(order@, f);
        }
        Err(Error::CannotRoute)
    }

    /// Returns the names in the sections whose prefixes are compatible with `prefix`.
    fn names_under(&self, prefix: &Prefix) -> (r: Vec<XorName>)
        requires
            self.inv(),
            prefix.inv(),
        ensures
            r@ == self@.names_under(self@.all_prefixes(), *prefix),
    {
        let prefixes = self.all_prefixes();
        let mut r: Vec<XorName> = Vec::new();
        let mut i: usize = 0;
        while i < prefixes.len()
            invariant
                self.inv(),
                prefix.inv(),
                prefixes@ == self@.all_prefixes(),
                forall|j: int|
                    0 <= j < prefixes@.len() ==> (#[trigger] prefixes@[j]).inv() && self@.knows(
                        prefixes@[j],
                    ),
                i <= prefixes@.len(),
                r@ == self@.names_under(prefixes@.take(i as int), *prefix),
            decreases prefixes@.len() - i,
        {
            assert(prefixes@[i as int].inv());
            assert(prefixes@.take(i + 1).drop_last() =~= prefixes@.take(i as int));
            if prefix.is_compatible(&prefixes[i]) {
                append_names(&mut r, &self.names_in(&prefixes[i]));
            }
            i += 1;
        }
        assert(prefixes@.take(i as int) =~= prefixes@);
        r
    }

    /// Returns a set of nodes to which a message for the given `Authority` could be sent
    /// onwards, sorted by priority, along with the number of targets the message should be sent to.
    /// If the total number of targets returned is larger than this number, the spare targets can
    /// be used if the message can't be delivered to some of the initial ones.
    ///
    /// * If the destination is an `Authority::Section`:
    ///     - if our section is the closest on the network (i.e. our section's prefix is a prefix of
    ///       the destination), returns all other members of our section; otherwise
    ///     - returns the `N/3` closest members of the RT to the target
    ///
    /// * If the destination is an `Authority::PrefixSection`:
    ///     - if the prefix is compatible with our prefix and is fully-covered by prefixes in our
    ///       RT, returns all members in these prefixes except ourself; otherwise
    ///     - if the prefix is compatible with our prefix and is *not* fully-covered by prefixes in
    ///       our RT, returns `Err(Error::CannotRoute)`; otherwise
    ///     - returns the `N/3` closest members of the RT to the lower bound of the target
    ///       prefix
    ///
    /// * If the destination is a group (`ClientManager`, `NaeManager` or `NodeManager`):
    ///     - if our section is the closest on the network (i.e. our section's prefix is a prefix of
    ///       the destination), returns all other members of our section; otherwise
    ///     - returns the `N/3` closest members of the RT to the target
    ///
    /// * If the destination is an individual node (`ManagedNode` or `Client`):
    ///     - if our name *is* the destination, returns an empty set; otherwise
    ///     - if the destination name is an entry in the routing table, returns it; otherwise
    ///     - returns the `N/3` closest members of the RT to the target
    ///
    /// Only nodes that we are connected to are returned. The `N/3` closest members are taken from
    /// the section closest to the target of which we are connected to a third at least; its other
    /// members follow them as spare targets. If there is no such section, returns
    /// `Err(Error::CannotRoute)`.
    pub fn targets(&self, dst: &Authority, connected_peers: &[&XorName]) -> (r: Result<
        (Vec<XorName>, usize),
        Error,
    >)
        requires
            self.inv(),
            dst.inv(),
        ensures
            match r {
                Ok(x) => self@.targets_of(*dst, peer_names(connected_peers@)) == Ok::<
                    (Seq<XorName>, nat),
                    Error,
                >((x.0@, x.1 as nat)),
                Err(e) => self@.targets_of(*dst, peer_names(connected_peers@)) == Err::<
                    (Seq<XorName>, nat),
                    Error,
                >(e),
            },
    {
        match dst {
            Authority::ManagedNode(target_name) => self.node_targets(target_name, connected_peers),
            Authority::Client { client_id: _, proxy_node_name } => self.node_targets(
                proxy_node_name,
                connected_peers,
            ),
            Authority::ClientManager(target_name) => self.group_targets(
                target_name,
                connected_peers,
            ),
            Authority::NaeManager(target_name) => self.group_targets(target_name, connected_peers),
            Authority::NodeManager(target_name) => self.group_targets(target_name, connected_peers),
            Authority::Section(target_name) => self.group_targets(target_name, connected_peers),
            Authority::PrefixSection(prefix) => self.prefix_targets(prefix, connected_peers),
        }
    }

    /// Returns where a message to a single node is sent on to.
    fn node_targets(&self, target_name: &XorName, connected_peers: &[&XorName]) -> (r: Result<
        (Vec<XorName>, usize),
        Error,
    >)
        requires
            self.inv(),
        ensures
            match r {
                Ok(x) => self@.node_targets(*target_name, peer_names(connected_peers@)) == Ok::<
                    (Seq<XorName>, nat),
                    Error,
                >((x.0@, x.1 as nat)),
                Err(e) => self@.node_targets(*target_name, peer_names(connected_peers@)) == Err::<
                    (Seq<XorName>, nat),
                    Error,
                >(e),
            },
    {
        let mut names: Vec<XorName> = Vec::new();
        if target_name.is(self.our_id().name()) {
            assert(names@ =~= Seq::<XorName>::empty());
            return Ok((names, 0));
        }
        if self.has(target_name) && is_connected(target_name, connected_peers) {
            names.push(*target_name);
            assert(names@ =~= seq![*target_name]);
            return Ok((names, 1));
        }
        self.candidates(target_name, connected_peers)
    }

    /// Returns where a message to the section or to the group that a name belongs to is sent on to.
    fn group_targets(&self, target_name: &XorName, connected_peers: &[&XorName]) -> (r: Result<
        (Vec<XorName>, usize),
        Error,
    >)
        requires
            self.inv(),
        ensures
            match r {
                Ok(x) => self@.group_targets(*target_name, peer_names(connected_peers@)) == Ok::<
                    (Seq<XorName>, nat),
                    Error,
                >((x.0@, x.1 as nat)),
                Err(e) => self@.group_targets(*target_name, peer_names(connected_peers@)) == Err::<
                    (Seq<XorName>, nat),
                    Error,
                >(e),
            },
    {
        if self.our_prefix().matches(target_name) {
            // Exclude our name since we don't need to send to ourself
            let mut section = self.our_info().member_names();
            let _ = section.remove(self.our_id().name());
            let names = connected(&listed(&section), connected_peers);
            let dg_size = names.len();
            return Ok((names, dg_size));
        }
        self.candidates(target_name, connected_peers)
    }

    /// Returns where a message to all sections under a prefix is sent on to.
    fn prefix_targets(&self, prefix: &Prefix, connected_peers: &[&XorName]) -> (r: Result<
        (Vec<XorName>, usize),
        Error,
    >)
        requires
            self.inv(),
            prefix.inv(),
        ensures
            match r {
                Ok(x) => self@.prefix_targets(*prefix, peer_names(connected_peers@)) == Ok::<
                    (Seq<XorName>, nat),
                    Error,
                >((x.0@, x.1 as nat)),
                Err(e) => self@.prefix_targets(*prefix, peer_names(connected_peers@)) == Err::<
                    (Seq<XorName>, nat),
                    Error,
                >(e),
            },
    {
        if prefix.is_compatible(self.our_prefix()) {
            // Only route the message when we have all the targets in our routing table. This is to
            // prevent spamming the network by sending messages with intentionally short prefixes.
            if !prefix.is_covered_by(&self.prefixes()) {
                return Err(Error::CannotRoute);
            }
            let names = connected(&self.names_under(prefix), connected_peers);
            let targets = others(&names, self.our_id().name());
            let dg_size = targets.len();
            return Ok((targets, dg_size));
        }
        self.candidates(&prefix.lower_bound(), connected_peers)
    }

    /// Returns our own section, including our own name.
    pub fn our_section(&self) -> (r: OrderedSet<XorName>)
        requires
            self.inv(),
        ensures
            r.inv(),
            r@ == self@.our_info().names(),
    {
        self.our_info().member_names()
    }

    /// Are we among the `count` closest nodes to `name`?
    fn is_closest(&self, name: &XorName, count: usize, connected_peers: &[&XorName]) -> (r: bool)
        requires
            self.inv(),
        ensures
            r == self@.is_close(*name, count, peer_names(connected_peers@)),
    {
        self.closest_names(name, count, connected_peers).is_some()
    }

    /// Returns whether we are a part of the given authority.
    pub fn in_authority(&self, auth: &Authority, connected_peers: &[&XorName]) -> (r: bool)
        requires
            self.inv(),
            auth.inv(),
        ensures
            r == self@.is_in(*auth, peer_names(connected_peers@)),
    {
        match auth {
            // Clients have no routing tables.
            Authority::Client { client_id: _, proxy_node_name: _ } => false,
            Authority::ManagedNode(name) => self.our_id().name().is(name),
            Authority::ClientManager(name) => self.is_closest(
                name,
                self.min_sec_size(),
                connected_peers,
            ),
            Authority::NaeManager(name) => self.is_closest(
                name,
                self.min_sec_size(),
                connected_peers,
            ),
            Authority::NodeManager(name) => self.is_closest(
                name,
                self.min_sec_size(),
                connected_peers,
            ),
            Authority::Section(name) => self.our_prefix().matches(name),
            Authority::PrefixSection(prefix) => self.our_prefix().is_compatible(prefix),
        }
    }

    /// Returns the total number of entries in the routing table, excluding our own name.
    pub fn len(&self) -> (r: usize)
        requires
            self.inv(),
            self@.size() <= usize::MAX,
        ensures
            r == self@.size(),
    {
        let prefixes = self.all_prefixes();
        let mut sum: usize = 0;
        let mut i: usize = 0;
        while i < prefixes.len()
            invariant
                self.inv(),
                prefixes@ == self@.all_prefixes(),
                forall|j: int|
                    0 <= j < prefixes@.len() ==> (#[trigger] prefixes@[j]).inv() && self@.knows(
                        prefixes@[j],
                    ),
                i <= prefixes@.len(),
                sum == self@.others_in(prefixes@.take(i as int)),
                self@.others_in(prefixes@) <= usize::MAX,
            decreases prefixes@.len() - i,
        {
            proof {
                assert(prefixes@.take(i + 1).drop_last() =~= prefixes@.take(i as int));
                self@.others_in_grows(prefixes@, i + 1);
                assert(prefixes@[i as int].inv());
            }
            let members = self.section(&prefixes[i]).members();
            proof {
                members.lemma_inv();
            }
            if members.contains(self.our_id()) {
                sum += members.len() - 1;
            } else {
                assert(members@.remove(self@.our_id) =~= members@);
                sum += members.len();
            }
            i += 1;
        }
        assert(prefixes@.take(i as int) =~= prefixes@);
        sum
    }

    /// Returns whether the known sections make up the whole network.
    pub fn knows_whole_network(&self) -> (r: bool)
        requires
            self.inv(),
        ensures
            r == covered(
                Seq::empty(),
                self@.neighbours.dom().insert(self@.our_prefix()),
            ),
    {
        Prefix::empty().is_covered_by(&self.prefixes())
    }

    /// Return a minimum length prefix, favouring our prefix if it is one of the shortest.
    pub fn min_len_prefix(&self) -> (r: Prefix)
        requires
            self.inv(),
        ensures
            r.inv(),
            self@.is_min_len_prefix(r),
    {
        let neighbours = self.neighbours();
        let ghost keys = neighbours.seq();
        let ghost m = self@;
        proof {
            neighbours.lemma_inv();
            self.lemma_inv();
            m.neighbours_are_others();
        }
        let mut best = *self.our_prefix();
        let ghost mut at: int = -1;
        let mut i: usize = 0;
        while i < neighbours.len()
            invariant
                self.inv(),
                m == self@,
                neighbours.inv(),
                neighbours@ == m.neighbours,
                keys == neighbours.seq(),
                ascending::<Prefix>(keys),
                i <= keys.len(),
                best.inv(),
                -1 <= at < i,
                at == -1 ==> best == m.our_prefix(),
                at >= 0 ==> best == keys[at] && best.bits().len() < m.our_prefix().bits().len(),
                forall|j: int| 0 <= j < i ==> best.bits().len() <= (#[trigger] keys[j]).bits().len(),
                forall|j: int| 0 <= j < at ==> best.bits().len() < (#[trigger] keys[j]).bits().len(),
            decreases keys.len() - i,
        {
            let pfx = *neighbours.key_at(i);
            if pfx.bit_count() < best.bit_count() {
                best = pfx;
                proof {
                    at = i as int;
                }
            }
            i += 1;
        }
        proof {
            if at >= 0 {
                assert(keys.contains(keys[at]));
                assert(keys.to_set().contains(keys[at]));
            }
            assert forall|q: Prefix| #[trigger] m.neighbours.dom().contains(q) implies (
            best.bits().len() <= q.bits().len() && (q.bits().len() == best.bits().len() && best
                != m.our_prefix() ==> best == q || key_less::<Prefix>(best, q))) by {
                assert(keys.to_set().contains(q));
                let j = choose|j: int| 0 <= j < keys.len() && keys[j] == q;
                assert(keys[j] == q);
                if best != m.our_prefix() && j > at {
                    assert(key_less::<Prefix>(keys[at], keys[j]));
                }
            }
        }
        best
    }
}

impl ChainModel {
    /// More sections have no fewer members.
    proof fn others_in_grows(self, sections: Seq<Prefix>, n: int)
        requires
            0 <= n <= sections.len(),
        ensures
            self.others_in(sections.take(n)) <= self.others_in(sections),
        decreases sections.len() - n,
    {
        if n == sections.len() {
            assert(sections.take(n) =~= sections);
        } else {
            self.others_in_grows(sections, n + 1);
            assert(sections.take(n + 1).drop_last() =~= sections.take(n));
        }
    }
}

} // verus!
