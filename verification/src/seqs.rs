//! Searching and sorting sequences.

use crate::codes::set_valid;
use crate::order::{key_less, Checked, Key, Order};
use crate::ordered::sorted;
use crate::prefix::Prefix;
use crate::xor_name::{
    distance_order, nearer, nearer_asymmetric, nearer_total, nearer_transitive, not_farther,
    XorName,
};
use itertools::Itertools;
use std::cmp::Ordering;
use vstd::prelude::*;

verus! {

/// What a sequence holds after another element was appended.
pub proof fn push_contains<T>(s: Seq<T>, x: T)
    ensures
        forall|y: T| #[trigger] s.push(x).contains(y) <==> (s.contains(y) || y == x),
        s.push(x).to_set() == s.to_set().insert(x),
{
    let u = s.push(x);
    assert forall|y: T| #[trigger] u.contains(y) <==> (s.contains(y) || y == x) by {
        assert(u[s.len() as int] == x);
        if s.contains(y) {
            let j = choose|j: int| 0 <= j < s.len() && s[j] == y;
            assert(u[j] == y);
        }
        if u.contains(y) && y != x {
            let j = choose|j: int| 0 <= j < u.len() && u[j] == y;
            assert(s[j] == y);
        }
    }
    assert(u.to_set() =~= s.to_set().insert(x));
}

/// The first elements with the next one are the first elements and the next one.
pub proof fn take_next<T>(s: Seq<T>, i: int)
    requires
        0 <= i < s.len(),
    ensures
        s.take(i + 1) == s.take(i).push(s[i]),
        forall|y: T| #[trigger]
            s.take(i + 1).contains(y) <==> (s.take(i).contains(y) || y == s[i]),
        s.take(i + 1).to_set() == s.take(i).to_set().insert(s[i]),
{
    assert(s.take(i + 1) =~= s.take(i).push(s[i]));
    push_contains(s.take(i), s[i]);
}

/// The first element with a property.
pub open spec fn find_first<T>(s: Seq<T>, p: spec_fn(T) -> bool) -> Option<T>
    decreases s.len(),
{
    if s.len() == 0 {
        None
    } else if p(s[0]) {
        Some(s[0])
    } else {
        find_first(s.drop_first(), p)
    }
}

/// The last element with a property.
pub open spec fn find_last<T>(s: Seq<T>, p: spec_fn(T) -> bool) -> Option<T>
    decreases s.len(),
{
    if s.len() == 0 {
        None
    } else if p(s.last()) {
        Some(s.last())
    } else {
        find_last(s.drop_last(), p)
    }
}

/// The element before which no other one has the property is the first one.
pub proof fn find_first_at<T>(s: Seq<T>, p: spec_fn(T) -> bool, i: int)
    requires
        0 <= i < s.len(),
        p(s[i]),
        forall|j: int| 0 <= j < i ==> !p(s[j]),
    ensures
        find_first(s, p) == Some(s[i]),
    decreases i,
{
    if i > 0 {
        assert(!p(s[0]));
        let t = s.drop_first();
        assert forall|j: int| 0 <= j < i - 1 implies !p(t[j]) by {
            assert(!p(s[j + 1]));
        }
        find_first_at(t, p, i - 1);
    }
}

/// Where no element has the property there is no first one.
pub proof fn find_first_none<T>(s: Seq<T>, p: spec_fn(T) -> bool)
    requires
        forall|j: int| 0 <= j < s.len() ==> !p(s[j]),
    ensures
        find_first(s, p) == None::<T>,
    decreases s.len(),
{
    if s.len() > 0 {
        assert(!p(s[0]));
        let t = s.drop_first();
        assert forall|j: int| 0 <= j < t.len() implies !p(t[j]) by {
            assert(!p(s[j + 1]));
        }
        find_first_none(t, p);
    }
}

/// The first element is one of the sequence and has the property; if there is none, no element has
/// it.
pub proof fn find_first_props<T>(s: Seq<T>, p: spec_fn(T) -> bool)
    ensures
        match find_first(s, p) {
            Some(x) => s.contains(x) && p(x),
            None => forall|i: int| 0 <= i < s.len() ==> !p(#[trigger] s[i]),
        },
    decreases s.len(),
{
    if s.len() > 0 {
        if p(s[0]) {
            assert(s.contains(s[0]));
        } else {
            let t = s.drop_first();
            find_first_props(t, p);
            match find_first(t, p) {
                Some(x) => {
                    let i = choose|i: int| 0 <= i < t.len() && t[i] == x;
                    assert(s[i + 1] == x);
                },
                None => {
                    assert forall|i: int| 0 <= i < s.len() implies !p(#[trigger] s[i]) by {
                        if i > 0 {
                            assert(t[i - 1] == s[i]);
                        }
                    }
                },
            }
        }
    }
}

/// The element after which no other one has the property is the last one.
pub proof fn find_last_at<T>(s: Seq<T>, p: spec_fn(T) -> bool, i: int)
    requires
        0 <= i < s.len(),
        p(s[i]),
        forall|j: int| i < j < s.len() ==> !p(s[j]),
    ensures
        find_last(s, p) == Some(s[i]),
    decreases s.len() - i,
{
    if i < s.len() - 1 {
        assert(!p(s[s.len() - 1]));
        let t = s.drop_last();
        assert forall|j: int| i < j < t.len() implies !p(t[j]) by {
            assert(!p(s[j]));
        }
        find_last_at(t, p, i);
    }
}

/// Where no element has the property there is no last one.
pub proof fn find_last_none<T>(s: Seq<T>, p: spec_fn(T) -> bool)
    requires
        forall|j: int| 0 <= j < s.len() ==> !p(s[j]),
    ensures
        find_last(s, p) == None::<T>,
    decreases s.len(),
{
    if s.len() > 0 {
        assert(!p(s[s.len() - 1]));
        let t = s.drop_last();
        assert forall|j: int| 0 <= j < t.len() implies !p(t[j]) by {
            assert(!p(s[j]));
        }
        find_last_none(t, p);
    }
}

/// The last element is one of the sequence and has the property; if there is none, no element has
/// it.
pub proof fn find_last_props<T>(s: Seq<T>, p: spec_fn(T) -> bool)
    ensures
        match find_last(s, p) {
            Some(x) => s.contains(x) && p(x),
            None => forall|i: int| 0 <= i < s.len() ==> !p(#[trigger] s[i]),
        },
    decreases s.len(),
{
    if s.len() > 0 {
        if p(s.last()) {
            assert(s.contains(s[s.len() - 1]));
        } else {
            let t = s.drop_last();
            find_last_props(t, p);
            match find_last(t, p) {
                Some(x) => {
                    let i = choose|i: int| 0 <= i < t.len() && t[i] == x;
                    assert(s[i] == x);
                },
                None => {
                    assert forall|i: int| 0 <= i < s.len() implies !p(#[trigger] s[i]) by {
                        if i < t.len() {
                            assert(t[i] == s[i]);
                        }
                    }
                },
            }
        }
    }
}

/// A value that has a place in the space of names.
pub trait Placed: Checked {
    /// The bits of the place.
    spec fn place(&self) -> Seq<bool>;

    /// Compares the distances of two values from a name.
    fn distance_ordering(&self, other: &Self, target: &XorName) -> (o: Ordering)
        requires
            self.inv(),
            other.inv(),
        ensures
            o == Ordering::Less <==> distance_order(target.bits(), self.place(), other.place())
                == Order::Less,
            o == Ordering::Equal <==> distance_order(target.bits(), self.place(), other.place())
                == Order::Equal,
            o == Ordering::Greater <==> distance_order(target.bits(), self.place(), other.place())
                == Order::Greater,
    ;
}

impl Placed for XorName {
    open spec fn place(&self) -> Seq<bool> {
        self.bits()
    }

    fn distance_ordering(&self, other: &Self, target: &XorName) -> (o: Ordering) {
        match target.order_distance(self, other) {
            Order::Less => Ordering::Less,
            Order::Equal => Ordering::Equal,
            Order::Greater => Ordering::Greater,
        }
    }
}

impl Placed for Prefix {
    open spec fn place(&self) -> Seq<bool> {
        self.bits()
    }

    fn distance_ordering(&self, other: &Self, target: &XorName) -> (o: Ordering) {
        match self.order_distance(other, target) {
            Order::Less => Ordering::Less,
            Order::Equal => Ordering::Equal,
            Order::Greater => Ordering::Greater,
        }
    }
}

/// Puts `x` into a sequence that is sorted by the distance from `t`, behind everything that is not
/// farther away.
pub open spec fn insert_by_distance<T: Placed>(s: Seq<T>, x: T, t: XorName) -> Seq<T>
    decreases s.len(),
{
    if s.len() == 0 || not_farther(t.bits(), s.last().place(), x.place()) {
        s.push(x)
    } else {
        insert_by_distance(s.drop_last(), x, t).push(s.last())
    }
}

/// The sequence sorted by the distance from `t`. What is at the same place keeps its order.
pub open spec fn by_distance<T: Placed>(s: Seq<T>, t: XorName) -> Seq<T>
    decreases s.len(),
{
    if s.len() == 0 {
        s
    } else {
        insert_by_distance(by_distance(s.drop_last(), t), s.last(), t)
    }
}

/// Calls `Itertools::sorted_by` with a comparison of the distances from `target`. What is claimed:
/// the result holds the given items, the nearest ones first, and those at the same place in the
/// order that they had. `sorted_by` collects the items and sorts them with `slice::sort_by`, which
/// is documented to be a stable sort.
#[verifier::external_body]
pub(crate) fn sorted_by_distance<T: Placed>(items: Vec<T>, target: &XorName) -> (r: Vec<T>)
    requires
        forall|i: int| 0 <= i < items@.len() ==> (#[trigger] items@[i]).inv(),
    ensures
        r@ == by_distance(items@, *target),
{
    items.into_iter().sorted_by(|a, b| a.distance_ordering(b, target))
}

proof fn insert_by_distance_contains<T: Placed>(s: Seq<T>, x: T, t: XorName)
    ensures
        insert_by_distance(s, x, t).len() == s.len() + 1,
        forall|y: T| #[trigger]
            insert_by_distance(s, x, t).contains(y) <==> (s.contains(y) || y == x),
        insert_by_distance(s, x, t).to_multiset() == s.to_multiset().insert(x),
    decreases s.len(),
{
    broadcast use vstd::seq_lib::group_to_multiset_ensures;

    let r = insert_by_distance(s, x, t);
    if s.len() == 0 || not_farther(t.bits(), s.last().place(), x.place()) {
        assert forall|y: T| #[trigger] r.contains(y) <==> (s.contains(y) || y == x) by {
            assert(r[s.len() as int] == x);
            if s.contains(y) {
                let i = choose|i: int| 0 <= i < s.len() && s[i] == y;
                assert(r[i] == y);
            }
        }
    } else {
        let u = s.drop_last();
        insert_by_distance_contains(u, x, t);
        let v = insert_by_distance(u, x, t);
        assert(s =~= u.push(s.last()));
        assert forall|y: T| #[trigger] r.contains(y) <==> (s.contains(y) || y == x) by {
            assert(r[v.len() as int] == s.last());
            assert(s[s.len() - 1] == s.last());
            if v.contains(y) {
                let i = choose|i: int| 0 <= i < v.len() && v[i] == y;
                assert(r[i] == y);
            }
            if u.contains(y) {
                let i = choose|i: int| 0 <= i < u.len() && u[i] == y;
                assert(s[i] == y);
            }
            if s.contains(y) && y != s.last() {
                let i = choose|i: int| 0 <= i < s.len() && s[i] == y;
                assert(u[i] == y);
            }
            if r.contains(y) && y != s.last() {
                let i = choose|i: int| 0 <= i < r.len() && r[i] == y;
                assert(v[i] == y);
            }
        }
        assert(r.to_multiset() =~= s.to_multiset().insert(x));
    }
}

/// Sorting neither adds nor removes anything.
pub proof fn by_distance_contains<T: Placed>(s: Seq<T>, t: XorName)
    ensures
        by_distance(s, t).len() == s.len(),
        forall|y: T| #[trigger] by_distance(s, t).contains(y) <==> s.contains(y),
        by_distance(s, t).to_multiset() == s.to_multiset(),
    decreases s.len(),
{
    broadcast use vstd::seq_lib::group_to_multiset_ensures;

    if s.len() > 0 {
        let u = s.drop_last();
        by_distance_contains(u, t);
        insert_by_distance_contains(by_distance(u, t), s.last(), t);
        assert(s =~= u.push(s.last()));
        assert forall|y: T| s.contains(y) <==> (u.contains(y) || y == s.last()) by {
            assert(s[s.len() - 1] == s.last());
            if u.contains(y) {
                let i = choose|i: int| 0 <= i < u.len() && u[i] == y;
                assert(s[i] == y);
            }
            if s.contains(y) && y != s.last() {
                let i = choose|i: int| 0 <= i < s.len() && s[i] == y;
                assert(u[i] == y);
            }
        }
    }
}

/// The elements stand in the order of their distances from `t`.
pub open spec fn is_by_distance<T: Placed>(s: Seq<T>, t: XorName) -> bool {
    forall|i: int, j: int|
        0 <= i < j < s.len() ==> #[trigger] not_farther(t.bits(), s[i].place(), s[j].place())
}

proof fn insert_by_distance_sorted<T: Placed>(s: Seq<T>, x: T, t: XorName)
    requires
        is_by_distance(s, t),
    ensures
        is_by_distance(insert_by_distance(s, x, t), t),
    decreases s.len(),
{
    let r = insert_by_distance(s, x, t);
    let b = t.bits();
    if s.len() == 0 || not_farther(b, s.last().place(), x.place()) {
        assert forall|i: int, j: int| 0 <= i < j < r.len() implies #[trigger] not_farther(
            b,
            r[i].place(),
            r[j].place(),
        ) by {
            if j < s.len() {
                assert(not_farther(b, s[i].place(), s[j].place()));
            } else if i < s.len() - 1 {
                assert(not_farther(b, s[i].place(), s[s.len() - 1].place()));
                not_farther_transitive(b, s[i].place(), s.last().place(), x.place());
            }
        }
    } else {
        let u = s.drop_last();
        assert forall|i: int, j: int| 0 <= i < j < u.len() implies #[trigger] not_farther(
            b,
            u[i].place(),
            u[j].place(),
        ) by {
            assert(not_farther(b, s[i].place(), s[j].place()));
        }
        insert_by_distance_sorted(u, x, t);
        insert_by_distance_contains(u, x, t);
        let v = insert_by_distance(u, x, t);
        assert forall|i: int, j: int| 0 <= i < j < r.len() implies #[trigger] not_farther(
            b,
            r[i].place(),
            r[j].place(),
        ) by {
            if j < v.len() {
                assert(not_farther(b, v[i].place(), v[j].place()));
            } else {
                assert(v.contains(v[i]));
                if v[i] == x {
                    nearer_asymmetric(b, x.place(), s.last().place());
                } else {
                    let k = choose|k: int| 0 <= k < u.len() && u[k] == v[i];
                    assert(not_farther(b, s[k].place(), s[s.len() - 1].place()));
                }
            }
        }
    }
}

/// Sorting by distance brings the elements into the order of their distances.
pub proof fn by_distance_sorted<T: Placed>(s: Seq<T>, t: XorName)
    ensures
        is_by_distance(by_distance(s, t), t),
    decreases s.len(),
{
    if s.len() > 0 {
        by_distance_sorted(s.drop_last(), t);
        insert_by_distance_sorted(by_distance(s.drop_last(), t), s.last(), t);
    }
}

/// Not being farther away is transitive.
pub proof fn not_farther_transitive(t: Seq<bool>, a: Seq<bool>, b: Seq<bool>, c: Seq<bool>)
    requires
        not_farther(t, a, b),
        not_farther(t, b, c),
    ensures
        not_farther(t, a, c),
{
    nearer_total(t, a, b);
    nearer_total(t, b, c);
    if nearer(t, c, a) {
        if a != b {
            nearer_transitive(t, c, a, b);
        }
    }
}

/// Nothing before the first element with a property has it.
pub proof fn find_first_position<T>(s: Seq<T>, p: spec_fn(T) -> bool) -> (i: int)
    requires
        find_first(s, p) is Some,
    ensures
        0 <= i < s.len(),
        find_first(s, p) == Some(s[i]),
        p(s[i]),
        forall|j: int| 0 <= j < i ==> !p(#[trigger] s[j]),
    decreases s.len(),
{
    if p(s[0]) {
        0
    } else {
        let t = s.drop_first();
        let k = find_first_position(t, p);
        assert forall|j: int| 0 <= j < k + 1 implies !p(#[trigger] s[j]) by {
            if j > 0 {
                assert(t[j - 1] == s[j]);
            }
        }
        k + 1
    }
}

/// Nothing behind the last element with a property has it.
pub proof fn find_last_position<T>(s: Seq<T>, p: spec_fn(T) -> bool) -> (i: int)
    requires
        find_last(s, p) is Some,
    ensures
        0 <= i < s.len(),
        find_last(s, p) == Some(s[i]),
        p(s[i]),
        forall|j: int| i < j < s.len() ==> !p(#[trigger] s[j]),
    decreases s.len(),
{
    if p(s.last()) {
        s.len() - 1
    } else {
        let t = s.drop_last();
        let k = find_last_position(t, p);
        assert forall|j: int| k < j < s.len() implies !p(#[trigger] s[j]) by {
            if j < t.len() {
                assert(t[j] == s[j]);
            }
        }
        k
    }
}

/// The first key of a set with a property is less than all other ones that have it.
pub proof fn find_first_least<K: Key>(s: Set<K::V>, p: spec_fn(K::V) -> bool)
    requires
        set_valid::<K>(s),
    ensures
        match find_first(sorted::<K>(s), p) {
            Some(x) => s.contains(x) && p(x) && forall|y: K::V| #[trigger]
                s.contains(y) && p(y) ==> y == x || key_less::<K>(x, y),
            None => forall|y: K::V| #[trigger] s.contains(y) ==> !p(y),
        },
{
    let q = sorted::<K>(s);
    if find_first(q, p) is Some {
        let i = find_first_position(q, p);
        assert(q.to_set().contains(q[i]));
        assert forall|y: K::V| #[trigger] s.contains(y) && p(y) implies y == q[i] || key_less::<K>(
            q[i],
            y,
        ) by {
            assert(q.to_set().contains(y));
            let j = choose|j: int| 0 <= j < q.len() && q[j] == y;
            assert(!(0 <= j < i));
        }
    } else {
        find_first_props(q, p);
        assert forall|y: K::V| #[trigger] s.contains(y) implies !p(y) by {
            assert(q.to_set().contains(y));
            let j = choose|j: int| 0 <= j < q.len() && q[j] == y;
            assert(!p(q[j]));
        }
    }
}

} // verus!
