//! What holds of the neighbouring sections.

use crate::chain_model::ChainModel;
use crate::order::{key_less, lex_less_at, Checked, Coded, Order};
use crate::prefix::{begins, covered, differ_only_at, shorter, Prefix};
use crate::proof_set::ProofMap;
use crate::section_info::{NeighbourModel, SectionModel};
use crate::xor_name::{
    common_len_props, common_len_unique, distance_order, nearer, nearer_asymmetric, nearer_total,
    XorName,
};
use vstd::prelude::*;

verus! {

/// No two neighbours overlap.
pub open spec fn separate(m: ChainModel) -> bool {
    forall|p: Prefix, q: Prefix|
        #![trigger m.neighbours.dom().contains(p), m.neighbours.dom().contains(q)]
        m.neighbours.dom().contains(p) && m.neighbours.dom().contains(q) && p != q
            ==> !p.compatible(q)
}

/// The section is newer or older than each neighbour that it overlaps with.
pub open spec fn dated_apart(m: ChainModel, info: SectionModel) -> bool {
    forall|q: Prefix| #[trigger]
        m.neighbours.dom().contains(q) && q != info.prefix && q.compatible(info.prefix)
            ==> m.neighbours[q].sec_info.version != info.version
}

/// The sibling and the parent of a prefix are those that are meant.
pub proof fn family_bits(p: Prefix)
    requires
        p.inv(),
    ensures
        p.twin().inv(),
        p.twin().bits() == p.sibling_bits(),
        p.parent().inv(),
        p.parent().bits() == p.parent_bits(),
        p.bits().len() > 0 ==> !p.compatible(p.twin()),
        p.parent().compatible(p),
        p.parent().compatible(p.twin()),
{
    p.bits_bound();
    Prefix::of_bits_exists(p.sibling_bits());
    Prefix::of_bits_exists(p.parent_bits());
    if p.bits().len() > 0 {
        let n = p.bits().len() - 1;
        assert(p.twin().bits()[n] != p.bits()[n]);
    }
}

/// Whatever overlaps with the sibling of a prefix overlaps with its parent.
pub proof fn overlaps_parent(p: Prefix, q: Prefix)
    requires
        p.inv(),
        q.compatible(p.twin()),
    ensures
        q.compatible(p.parent()),
{
    family_bits(p);
    let t = p.twin().bits();
    let u = p.parent().bits();
    assert(begins(u, t));
    if begins(q.bits(), t) {
        if q.bits().len() <= u.len() {
            assert forall|i: int| 0 <= i < q.bits().len() implies q.bits()[i] == u[i] by {
                assert(q.bits()[i] == t[i]);
            }
        } else {
            assert forall|i: int| 0 <= i < u.len() implies u[i] == q.bits()[i] by {
                assert(q.bits()[i] == t[i]);
            }
        }
    } else {
        assert forall|i: int| 0 <= i < u.len() implies u[i] == q.bits()[i] by {
            assert(t[i] == q.bits()[i]);
        }
    }
}

/// Overlapping is symmetric.
pub proof fn compatible_symmetric(p: Prefix, q: Prefix)
    ensures
        p.compatible(q) == q.compatible(p),
{
}

/// Neighbours do not overlap.
pub proof fn adjoining_do_not_overlap(p: Prefix, q: Prefix)
    requires
        p.adjoins(q),
    ensures
        !p.compatible(q),
        !q.compatible(p),
{
    let i = choose|i: int| differ_only_at(p.bits(), q.bits(), i);
    assert(p.bits()[i] != q.bits()[i]);
}

/// Neighbours that overlap are equally new.
pub open spec fn equally_new(m: ChainModel) -> bool {
    forall|p: Prefix, q: Prefix|
        #![trigger m.neighbours.dom().contains(p), m.neighbours.dom().contains(q)]
        m.neighbours.dom().contains(p) && m.neighbours.dom().contains(q) && p.compatible(q)
            ==> m.neighbours[p].sec_info.version == m.neighbours[q].sec_info.version
}

/// Cleaning leaves only neighbours of our section, of overlapping ones only such that are equally
/// new, and changes none of the sections that it leaves.
pub proof fn cleaning_removes_outdated(m: ChainModel, for_pfx: Option<Prefix>)
    ensures
        forall|p: Prefix| #[trigger]
            m.cleaned(for_pfx).neighbours.dom().contains(p) ==> m.our_prefix().adjoins(p)
                && m.neighbours.dom().contains(p)
                && m.cleaned(for_pfx).neighbours[p].sec_info == m.neighbours[p].sec_info,
        equally_new(m.cleaned(for_pfx)),
{
    let c = m.cleaned(for_pfx);
    assert forall|p: Prefix, q: Prefix|
        #![trigger c.neighbours.dom().contains(p), c.neighbours.dom().contains(q)]
        c.neighbours.dom().contains(p) && c.neighbours.dom().contains(q) && p.compatible(q) implies
        c.neighbours[p].sec_info.version == c.neighbours[q].sec_info.version by {
        assert(m.keeps(p) && m.keeps(q));
        assert(m.neighbours.dom().contains(p) && m.neighbours.dom().contains(q));
        compatible_symmetric(p, q);
    }
}

/// Cleaning keeps neighbours from overlapping.
pub proof fn cleaning_keeps_separate(m: ChainModel, for_pfx: Option<Prefix>)
    requires
        separate(m),
    ensures
        separate(m.cleaned(for_pfx)),
{
    let c = m.cleaned(for_pfx);
    assert forall|p: Prefix, q: Prefix|
        #![trigger c.neighbours.dom().contains(p), c.neighbours.dom().contains(q)]
        c.neighbours.dom().contains(p) && c.neighbours.dom().contains(q) && p != q implies
        !p.compatible(q) by {
        assert(m.neighbours.dom().contains(p) && m.neighbours.dom().contains(q));
    }
}

/// Where no two neighbours overlap and a section comes in that is newer or older than each that it
/// overlaps with, no two neighbours overlap afterwards. This holds even if the section is half of a
/// neighbour that has split, or the merger of some neighbours.
pub proof fn adding_keeps_separate(
    m: ChainModel,
    info: SectionModel,
    proofs: ProofMap,
    our_version: u64,
)
    requires
        m.valid(),
        info.valid(),
        separate(m),
        dated_apart(m, info),
    ensures
        separate(m.with_neighbour(info, proofs, our_version)),
{
    let p0 = info.prefix;
    family_bits(p0);
    let n = NeighbourModel { sec_info: info, proofs, our_version };
    let m1 = m.neighbours_with(p0, n);
    let twin = p0.twin();
    let parent = p0.parent();
    let half = m1.other_half_needed(info);
    let m2 = if half {
        m1.neighbours_with(twin, m1.neighbours[parent])
    } else {
        m1
    };
    let c = m2.cleaned(Some(p0));
    assert(c == m.with_neighbour(info, proofs, our_version));
    // A neighbour that the new section outdates does not stay, nor does the new section where a
    // neighbour outdates it.
    assert forall|q: Prefix| #[trigger] c.neighbours.dom().contains(q) && q != p0 && q != twin
        implies m.neighbours.dom().contains(q) && (q.compatible(p0) ==> info.version
        < m.neighbours[q].sec_info.version && !c.neighbours.dom().contains(p0)) by {
        assert(m2.neighbours.dom().contains(q) && m2.keeps(q));
        assert(m.neighbours.dom().contains(q));
        assert(m2.neighbours[q] == m.neighbours[q]);
        if q.compatible(p0) {
            compatible_symmetric(p0, q);
            assert(m2.neighbours.dom().contains(p0));
            assert(m2.neighbours[p0].sec_info == info);
            assert(info.version < m2.neighbours[q].sec_info.version);
            assert(!m2.keeps(p0));
        }
    }
    if half {
        assert(parent != p0);
        assert(p0.bits().len() > 0);
        assert(m.neighbours.dom().contains(parent));
        assert forall|q: Prefix| #[trigger] c.neighbours.dom().contains(q) && q != p0 && q != twin
            implies !q.compatible(twin) by {
            if q.compatible(twin) {
                overlaps_parent(p0, q);
                if q == parent {
                    assert(parent.compatible(p0));
                } else {
                    assert(m.neighbours.dom().contains(q));
                }
            }
        }
    }
    assert forall|p: Prefix, q: Prefix|
        #![trigger c.neighbours.dom().contains(p), c.neighbours.dom().contains(q)]
        c.neighbours.dom().contains(p) && c.neighbours.dom().contains(q) && p != q implies
        !p.compatible(q) by {
        assert(m2.neighbours.dom().contains(p) && m2.neighbours.dom().contains(q));
        compatible_symmetric(p, q);
        if half || twin == p0 {
            if p == p0 || p == twin || q == p0 || q == twin {
                if p == p0 && q == twin || p == twin && q == p0 {
                    compatible_symmetric(p0, twin);
                } else if p == p0 || q == p0 {
                    assert(c.neighbours.dom().contains(p0));
                }
            } else {
                assert(m.neighbours.dom().contains(p) && m.neighbours.dom().contains(q));
            }
        } else {
            // The sibling, if it is there, was there before.
            if p == p0 || q == p0 {
                let other = if p == p0 {
                    q
                } else {
                    p
                };
                if other == twin {
                    if p0.bits().len() == 0 {
                        Prefix::bits_injective(p0, twin);
                    }
                    compatible_symmetric(p0, twin);
                } else {
                    assert(c.neighbours.dom().contains(p0) && c.neighbours.dom().contains(other));
                }
            } else {
                assert(m.neighbours.dom().contains(p) && m.neighbours.dom().contains(q));
            }
        }
    }
}

/// A neighbour that was added is known, with its signatures, unless a newer one overlaps with it.
pub proof fn added_neighbour_is_known(
    m: ChainModel,
    info: SectionModel,
    proofs: ProofMap,
    our_version: u64,
)
    requires
        info.valid(),
        m.our_prefix().adjoins(info.prefix),
        forall|q: Prefix| #[trigger]
            m.neighbours.dom().contains(q) && q != info.prefix && q.compatible(info.prefix)
                ==> m.neighbours[q].sec_info.version <= info.version,
    ensures
        m.with_neighbour(info, proofs, our_version).neighbours.dom().contains(info.prefix),
        m.with_neighbour(info, proofs, our_version).neighbours[info.prefix].sec_info == info,
        m.with_neighbour(info, proofs, our_version).neighbours[info.prefix].proofs == proofs,
{
    let p0 = info.prefix;
    family_bits(p0);
    let n = NeighbourModel { sec_info: info, proofs, our_version };
    let m1 = m.neighbours_with(p0, n);
    let twin = p0.twin();
    let half = m1.other_half_needed(info);
    let m2 = if half {
        m1.neighbours_with(twin, m1.neighbours[p0.parent()])
    } else {
        m1
    };
    assert(m2.keeps(p0)) by {
        assert forall|q: Prefix| #[trigger] m2.neighbours.dom().contains(q) && q.compatible(p0)
            implies m2.neighbours[q].sec_info.version <= m2.neighbours[p0].sec_info.version by {
            if q != p0 && !(half && q == twin) {
                assert(m.neighbours.dom().contains(q));
            }
        }
    }
    assert(m2.neighbours.dom().contains(p0));
}

/// Where half of a neighbour comes in and the other half is a neighbour too, the other half goes on
/// with what was known of the whole, and the whole is forgotten.
pub proof fn split_neighbour_keeps_other_half(
    m: ChainModel,
    info: SectionModel,
    proofs: ProofMap,
    our_version: u64,
)
    requires
        m.valid(),
        info.valid(),
        separate(m),
        info.prefix.bits().len() > 0,
        m.other_half_needed(info),
    ensures
        m.with_neighbour(info, proofs, our_version).neighbours.dom().contains(info.prefix.twin()),
        m.with_neighbour(
            info,
            proofs,
            our_version,
        ).neighbours[info.prefix.twin()].sec_info == m.neighbours[info.prefix.parent()].sec_info,
        !m.with_neighbour(info, proofs, our_version).neighbours.dom().contains(
            info.prefix.parent(),
        ),
{
    let p0 = info.prefix;
    family_bits(p0);
    let n = NeighbourModel { sec_info: info, proofs, our_version };
    let m1 = m.neighbours_with(p0, n);
    let twin = p0.twin();
    let parent = p0.parent();
    assert(parent.bits().len() < p0.bits().len());
    assert(parent != p0);
    assert(twin.bits()[p0.bits().len() - 1] != p0.bits()[p0.bits().len() - 1]);
    assert(twin != p0);
    assert(m1.other_half_needed(info));
    let m2 = m1.neighbours_with(twin, m1.neighbours[parent]);
    assert(parent != twin);
    assert(!m2.keeps(parent)) by {
        compatible_symmetric(p0, parent);
        assert(m2.neighbours.dom().contains(p0));
        assert(m2.neighbours[p0].sec_info.version > m2.neighbours[parent].sec_info.version);
    }
    assert(m2.keeps(twin)) by {
        assert forall|q: Prefix| #[trigger] m2.neighbours.dom().contains(q) && q.compatible(twin)
            implies m2.neighbours[q].sec_info.version <= m2.neighbours[twin].sec_info.version by {
            if q == p0 {
                compatible_symmetric(p0, twin);
            } else if q != twin {
                overlaps_parent(p0, q);
                assert(m.neighbours.dom().contains(q));
                if q != parent {
                    assert(m.neighbours.dom().contains(parent));
                }
            }
        }
    }
    assert(m2.neighbours.dom().contains(twin));
}

/// A name belongs to a prefix exactly if it begins with its bits.
pub proof fn covering_is_beginning(p: Prefix, name: XorName)
    requires
        p.inv(),
    ensures
        p.covers(name) <==> (forall|i: int|
            0 <= i < p.bits().len() ==> #[trigger] p.bits()[i] == name.bits()[i]),
{
    p.bits_bound();
}

/// Prefixes overlap exactly if they agree as far as both go.
pub proof fn overlapping_is_agreeing(p: Prefix, q: Prefix)
    ensures
        p.compatible(q) <==> (forall|i: int|
            0 <= i < p.bits().len() && i < q.bits().len() ==> #[trigger] p.bits()[i] == q.bits()[i]),
{
    let (a, b) = (p.bits(), q.bits());
    if begins(b, a) {
        assert forall|i: int| 0 <= i < a.len() && i < b.len() implies #[trigger] a[i] == b[i] by {
            assert(b[i] == a[i]);
        }
    }
    if forall|i: int| 0 <= i < a.len() && i < b.len() ==> #[trigger] a[i] == b[i] {
        if a.len() <= b.len() {
            assert(begins(a, b));
        } else {
            assert forall|i: int| 0 <= i < b.len() implies b[i] == a[i] by {
                assert(a[i] == b[i]);
            }
            assert(begins(b, a));
        }
    }
}

/// Two prefixes that one name belongs to overlap.
pub proof fn common_name_overlaps(p: Prefix, q: Prefix, name: XorName)
    requires
        p.inv(),
        q.inv(),
        p.covers(name),
        q.covers(name),
    ensures
        p.compatible(q),
{
    covering_is_beginning(p, name);
    covering_is_beginning(q, name);
    overlapping_is_agreeing(p, q);
}

/// Neighbouring prefixes differ in one of the bits that both have, and in no other one.
pub proof fn neighbours_differ_once(p: Prefix, q: Prefix, i: int, j: int)
    requires
        0 <= i < p.bits().len(),
        i < q.bits().len(),
        p.bits()[i] != q.bits()[i],
        0 <= j < p.bits().len(),
        j < q.bits().len(),
        p.bits()[j] != q.bits()[j],
        i != j,
    ensures
        !p.adjoins(q),
{
    if p.adjoins(q) {
        let k = choose|k: int| differ_only_at(p.bits(), q.bits(), k);
        assert(i == k && j == k);
    }
}

/// Prefixes that differ in exactly one of the bits that both have are neighbours.
pub proof fn one_difference_makes_neighbours(p: Prefix, q: Prefix, i: int)
    requires
        0 <= i < p.bits().len(),
        i < q.bits().len(),
        p.bits()[i] != q.bits()[i],
        forall|j: int|
            0 <= j < p.bits().len() && j < q.bits().len() && j != i ==> #[trigger] p.bits()[j]
                == q.bits()[j],
    ensures
        p.adjoins(q),
        q.adjoins(p),
{
    assert(differ_only_at(p.bits(), q.bits(), i));
    assert(differ_only_at(q.bits(), p.bits(), i)) by {
        assert forall|j: int| 0 <= j < shorter(q.bits(), p.bits()) && j != i implies q.bits()[j]
            == p.bits()[j] by {
            assert(p.bits()[j] == q.bits()[j]);
        }
    }
}

/// The sibling of a prefix has the same bits but for the last one, and the parent has all but that
/// one. The sibling of the sibling is the prefix itself, and both have the same parent.
pub proof fn siblings_share_parent(p: Prefix)
    requires
        p.inv(),
        p.bits().len() > 0,
    ensures
        p.twin().bits().len() == p.bits().len(),
        forall|i: int|
            0 <= i < p.bits().len() - 1 ==> #[trigger] p.twin().bits()[i] == p.bits()[i],
        p.twin().bits().last() != p.bits().last(),
        p.twin().twin() == p,
        p.twin().parent() == p.parent(),
        p.parent().bits().len() == p.bits().len() - 1,
        forall|i: int|
            0 <= i < p.bits().len() - 1 ==> #[trigger] p.parent().bits()[i] == p.bits()[i],
        p.adjoins(p.twin()),
{
    family_bits(p);
    family_bits(p.twin());
    assert(p.twin().sibling_bits() =~= p.bits());
    Prefix::bits_injective(p.twin().twin(), p);
    assert(p.twin().parent_bits() =~= p.parent_bits());
    one_difference_makes_neighbours(p, p.twin(), p.bits().len() - 1);
}

/// Every name that belongs to a prefix belongs to exactly one of its halves, and a name that belongs
/// to a half belongs to the prefix.
pub proof fn halves_divide_prefix(p: Prefix, q: Prefix, bit: bool, name: XorName)
    requires
        p.inv(),
        q.inv(),
        p.bits().len() < 256,
        q.bits() == p.bits().push(bit),
    ensures
        q.extends(p),
        !p.extends(q),
        !p.extends(p),
        q.covers(name) <==> p.covers(name) && name.bits()[p.bits().len() as int] == bit,
{
    let n = p.bits().len() as int;
    if q.covers(name) {
        assert forall|i: int| 0 <= i < n implies p.bits()[i] == name.bits()[i] by {
            assert(q.bits()[i] == name.bits()[i]);
        }
        assert(q.bits()[n] == name.bits()[n]);
    }
    if p.covers(name) && name.bits()[n] == bit {
        assert forall|i: int| 0 <= i < q.bits().len() implies q.bits()[i] == name.bits()[i] by {
            if i < n {
                assert(p.bits()[i] == name.bits()[i]);
            }
        }
    }
}

/// A prefix extends another one exactly if it has more bits and overlaps with it.
pub proof fn extensions_are_longer(p: Prefix, q: Prefix)
    ensures
        p.extends(q) <==> p.bits().len() > q.bits().len() && p.compatible(q),
{
}

/// The prefixes cover another one exactly if each name that belongs to it belongs to one of them.
pub proof fn covered_names_have_a_section(p: Prefix, prefixes: Set<Prefix>)
    requires
        p.inv(),
    ensures
        covered(p.bits(), prefixes) <==> (forall|n: XorName|
            #[trigger] p.covers(n) ==> exists|q: Prefix| #[trigger]
                prefixes.contains(q) && q.covers(n)),
{
    if covered(p.bits(), prefixes) {
        assert forall|n: XorName| #[trigger] p.covers(n) implies exists|q: Prefix| #[trigger]
            prefixes.contains(q) && q.covers(n) by {
            assert(begins(p.bits(), n.bits()));
        }
    }
    if forall|n: XorName| #[trigger] p.covers(n) ==> exists|q: Prefix| #[trigger]
        prefixes.contains(q) && q.covers(n) {
        assert forall|n: XorName| begins(p.bits(), #[trigger] n.bits()) implies exists|q: Prefix|
            #[trigger] prefixes.contains(q) && q.covers(n) by {
            assert(p.covers(n));
        }
    }
}

/// Of two places that first differ at a bit, the one that agrees with the target there is nearer. A
/// prefix is nearer than what it begins.
pub proof fn first_difference_decides(t: Seq<bool>, a: Seq<bool>, b: Seq<bool>, k: nat)
    requires
        k <= a.len(),
        k < b.len(),
        forall|i: int| 0 <= i < k ==> a[i] == b[i],
        k < a.len() ==> a[k as int] != b[k as int],
    ensures
        k < a.len() ==> (nearer(t, a, b) <==> a[k as int] == t[k as int]),
        k == a.len() ==> nearer(t, a, b) && !nearer(t, b, a),
        !nearer(t, a, a),
{
    if k < a.len() {
        common_len_unique(a, b, k);
    } else {
        common_len_props(a, b);
        common_len_props(b, a);
    }
    common_len_props(a, a);
}

/// A prefix comes before another one if it has a zero where they first differ, or if it is where the
/// other one begins.
pub proof fn prefixes_are_ordered(p: Prefix, q: Prefix, k: int)
    requires
        0 <= k <= p.bits().len(),
        k < q.bits().len(),
        forall|i: int| 0 <= i < k ==> #[trigger] p.bits()[i] == q.bits()[i],
        k == p.bits().len() || !p.bits()[k] && q.bits()[k],
    ensures
        key_less::<Prefix>(p, q),
{
    let (a, b) = (Prefix::code(p), Prefix::code(q));
    assert forall|i: int| 0 <= i < k implies a[i] == b[i] by {
        assert(p.bits()[i] == q.bits()[i]);
    }
    assert(lex_less_at(a, b, k));
}

/// Comparing distances tells which of two places is nearer, and that they are equal if they are the
/// same.
pub proof fn distances_are_compared(t: Seq<bool>, a: Seq<bool>, b: Seq<bool>)
    ensures
        distance_order(t, a, b) == Order::Less <==> nearer(t, a, b),
        distance_order(t, a, b) == Order::Equal <==> a == b,
        distance_order(t, a, b) == Order::Greater <==> nearer(t, b, a),
{
    nearer_total(t, a, b);
    if nearer(t, a, b) {
        nearer_asymmetric(t, a, b);
    }
    if a == b && nearer(t, a, b) {
        nearer_asymmetric(t, a, a);
    }
    if nearer(t, b, a) {
        nearer_asymmetric(t, b, a);
    }
}

} // verus!
