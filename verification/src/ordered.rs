//! Sets and maps that keep their keys in ascending order.

use crate::order::{
    code_injective, key_less, key_total, lex_asymmetric, lex_transitive, Checked, Coded, Key,
    Order,
};
use crate::seqs::push_contains;
use vstd::prelude::*;

verus! {

/// The keys stand in strictly ascending order.
pub open spec fn ascending<K: Key>(s: Seq<K::V>) -> bool {
    forall|i: int, j: int| 0 <= i < j < s.len() ==> #[trigger] key_less::<K>(s[i], s[j])
}

/// All keys are valid.
pub open spec fn all_valid<K: Key>(s: Seq<K::V>) -> bool {
    forall|i: int| 0 <= i < s.len() ==> K::valid(#[trigger] s[i])
}

/// The keys of a finite set in ascending order.
pub open spec fn sorted<K: Key>(s: Set<K::V>) -> Seq<K::V> {
    choose|q: Seq<K::V>| q.to_set() == s && ascending::<K>(q) && all_valid::<K>(q)
}

/// An ascending sequence holds no key twice.
pub proof fn ascending_distinct<K: Key>(s: Seq<K::V>)
    requires
        ascending::<K>(s),
    ensures
        s.no_duplicates(),
        s.to_set().finite(),
        s.to_set().len() == s.len(),
{
    assert forall|i: int, j: int| 0 <= i < s.len() && 0 <= j < s.len() && i != j implies s[i]
        != s[j] by {
        if i < j {
            assert(key_less::<K>(s[i], s[j]));
            lex_asymmetric(K::code(s[i]), K::code(s[j]));
        } else {
            assert(key_less::<K>(s[j], s[i]));
            lex_asymmetric(K::code(s[j]), K::code(s[i]));
        }
    }
    s.unique_seq_to_set();
}

/// Two ascending sequences of the same keys are equal.
pub proof fn ascending_unique<K: Key>(a: Seq<K::V>, b: Seq<K::V>)
    requires
        ascending::<K>(a),
        ascending::<K>(b),
        a.to_set() == b.to_set(),
    ensures
        a == b,
    decreases a.len(),
{
    ascending_distinct::<K>(a);
    ascending_distinct::<K>(b);
    if a.len() > 0 {
        let n = a.len() - 1;
        assert(a.to_set().contains(a[n]));
        assert(b.to_set().contains(b[n]));
        assert(b.contains(a[n]));
        assert(a.contains(b[n]));
        let i = choose|i: int| 0 <= i < b.len() && b[i] == a[n];
        let j = choose|j: int| 0 <= j < a.len() && a[j] == b[n];
        if i < n && j < n {
            assert(key_less::<K>(b[i], b[n]));
            assert(key_less::<K>(a[j], a[n]));
            lex_asymmetric(K::code(b[i]), K::code(b[n]));
        }
        assert(a[n] == b[n]);
        let a1 = a.drop_last();
        let b1 = b.drop_last();
        assert(forall|i: int, j: int|
            0 <= i < j < a1.len() ==> key_less::<K>(a[i], a[j]) && key_less::<K>(b[i], b[j]));
        assert forall|x: K::V| a1.to_set().contains(x) == b1.to_set().contains(x) by {
            if a1.contains(x) {
                let p = choose|p: int| 0 <= p < a1.len() && a1[p] == x;
                assert(a[p] == x);
                assert(a.to_set().contains(x));
                assert(b.contains(x));
                let q = choose|q: int| 0 <= q < b.len() && b[q] == x;
                assert(q != n);
                assert(b1[q] == x);
            }
            if b1.contains(x) {
                let p = choose|p: int| 0 <= p < b1.len() && b1[p] == x;
                assert(b[p] == x);
                assert(b.to_set().contains(x));
                assert(a.contains(x));
                let q = choose|q: int| 0 <= q < a.len() && a[q] == x;
                assert(q != n);
                assert(a1[q] == x);
            }
        }
        assert(a1.to_set() =~= b1.to_set());
        ascending_unique::<K>(a1, b1);
        assert(a =~= a1.push(a[n]));
        assert(b =~= b1.push(b[n]));
    } else {
        assert(a =~= b);
    }
}

/// An ascending sequence of valid keys is the sorted sequence of its keys.
pub proof fn ascending_is_sorted<K: Key>(s: Seq<K::V>)
    requires
        ascending::<K>(s),
        all_valid::<K>(s),
    ensures
        sorted::<K>(s.to_set()) == s,
{
    ascending_unique::<K>(sorted::<K>(s.to_set()), s);
}

/// An ascending sequence of the given keys and another one.
proof fn insert_ascending<K: Key>(q: Seq<K::V>, k: K::V) -> (r: Seq<K::V>)
    requires
        ascending::<K>(q),
        all_valid::<K>(q),
        K::valid(k),
        !q.contains(k),
    ensures
        ascending::<K>(r),
        all_valid::<K>(r),
        r.to_set() == q.to_set().insert(k),
    decreases q.len(),
{
    if q.len() == 0 || key_less::<K>(q.last(), k) {
        let r = q.push(k);
        push_contains(q, k);
        assert forall|i: int, j: int| 0 <= i < j < r.len() implies #[trigger] key_less::<K>(
            r[i],
            r[j],
        ) by {
            if j < q.len() {
                assert(key_less::<K>(q[i], q[j]));
            } else if i < q.len() - 1 {
                assert(key_less::<K>(q[i], q[q.len() - 1]));
                lex_transitive(K::code(q[i]), K::code(q.last()), K::code(k));
            }
        }
        r
    } else {
        let last = q.last();
        let rest = q.drop_last();
        assert(q.contains(q[q.len() - 1]));
        key_total::<K>(last, k);
        assert(key_less::<K>(k, last));
        assert forall|i: int, j: int| 0 <= i < j < rest.len() implies #[trigger] key_less::<K>(
            rest[i],
            rest[j],
        ) by {
            assert(key_less::<K>(q[i], q[j]));
        }
        assert(!rest.contains(k)) by {
            if rest.contains(k) {
                let i = choose|i: int| 0 <= i < rest.len() && rest[i] == k;
                assert(q[i] == k);
            }
        }
        let inner = insert_ascending::<K>(rest, k);
        let r = inner.push(last);
        push_contains(inner, last);
        push_contains(rest, last);
        assert(q =~= rest.push(last));
        assert forall|i: int, j: int| 0 <= i < j < r.len() implies #[trigger] key_less::<K>(
            r[i],
            r[j],
        ) by {
            if j < inner.len() {
                assert(key_less::<K>(inner[i], inner[j]));
            } else {
                assert(inner.to_set().contains(inner[i]));
                assert(rest.to_set().insert(k).contains(inner[i]));
                if inner[i] != k {
                    assert(rest.contains(inner[i]));
                    let l = choose|l: int| 0 <= l < rest.len() && rest[l] == inner[i];
                    assert(key_less::<K>(q[l], q[q.len() - 1]));
                }
            }
        }
        assert(r.to_set() =~= q.to_set().insert(k));
        r
    }
}

/// The sorted sequence of a finite set of valid keys holds the keys of the set.
pub proof fn sorted_props<K: Key>(s: Set<K::V>)
    requires
        s.finite(),
        forall|k: K::V| #[trigger] s.contains(k) ==> K::valid(k),
    ensures
        sorted::<K>(s).to_set() == s,
        ascending::<K>(sorted::<K>(s)),
        all_valid::<K>(sorted::<K>(s)),
        sorted::<K>(s).no_duplicates(),
        sorted::<K>(s).len() == s.len(),
    decreases s.len(),
{
    if s.len() == 0 {
        s.lemma_len0_is_empty();
        let q = Seq::<K::V>::empty();
        assert(q.to_set() =~= s);
    } else {
        let k = s.choose();
        let rest = s.remove(k);
        sorted_props::<K>(rest);
        let q = sorted::<K>(rest);
        assert(!q.contains(k)) by {
            assert(q.contains(k) == q.to_set().contains(k));
        }
        let r = insert_ascending::<K>(q, k);
        assert(r.to_set() =~= s);
    }
    ascending_distinct::<K>(sorted::<K>(s));
}

/// A set that keeps its keys in ascending order.
#[derive(Debug, PartialEq, Eq)]
pub struct OrderedSet<K> {
    items: Vec<K>,
}

impl<K: Key> View for OrderedSet<K> {
    type V = Set<K::V>;

    open spec fn view(&self) -> Set<K::V> {
        self.seq().to_set()
    }
}

impl<K: Key> Checked for OrderedSet<K> {
    closed spec fn inv(&self) -> bool {
        &&& forall|i: int| 0 <= i < self.items@.len() ==> (#[trigger] self.items@[i]).inv()
        &&& ascending::<K>(self.seq())
    }

    fn duplicate(&self) -> (r: Self)
        ensures
            r.seq() == self.seq(),
    {
        let mut items: Vec<K> = Vec::new();
        let mut i: usize = 0;
        while i < self.items.len()
            invariant
                i <= self.items@.len(),
                items@.len() == i,
                forall|j: int|
                    0 <= j < i ==> (#[trigger] items@[j])@ == self.items@[j]@ && (
                    self.items@[j].inv() ==> items@[j].inv()),
            decreases self.items@.len() - i,
        {
            items.push(self.items[i].duplicate());
            i += 1;
        }
        let r = OrderedSet { items };
        assert(r.seq() =~= self.seq());
        r
    }
}

impl<K: Key> OrderedSet<K> {
    /// The keys in the order in which they stand.
    pub closed spec fn seq(&self) -> Seq<K::V> {
        self.items@.map_values(|k: K| k@)
    }

    /// The keys stand in ascending order, each of them once.
    pub proof fn lemma_inv(&self)
        requires
            self.inv(),
        ensures
            ascending::<K>(self.seq()),
            all_valid::<K>(self.seq()),
            self.seq() == sorted::<K>(self@),
            self@.finite(),
            self@.len() == self.seq().len(),
            self.seq().no_duplicates(),
    {
        assert forall|i: int| 0 <= i < self.seq().len() implies K::valid(#[trigger] self.seq()[i]) by {
            assert(self.items@[i].inv());
            self.items@[i].inv_valid();
        }
        ascending_distinct::<K>(self.seq());
        ascending_is_sorted::<K>(self.seq());
    }

    /// The key at the given position, as a valid model.
    pub proof fn at_valid(&self, i: int) -> (k: K::V)
        requires
            self.inv(),
            0 <= i < self.seq().len(),
        ensures
            k == self.seq()[i],
            K::valid(k),
            self@.contains(k),
    {
        self.lemma_inv();
        assert(self.seq().contains(self.seq()[i]));
        self.seq()[i]
    }

    /// Returns an empty set.
    pub fn new() -> (r: Self)
        ensures
            r.inv(),
            r@ == Set::<K::V>::empty(),
            r.seq() == Seq::<K::V>::empty(),
    {
        let r = OrderedSet { items: Vec::new() };
        assert(r.seq() =~= Seq::<K::V>::empty());
        assert(r@ =~= Set::<K::V>::empty());
        r
    }

    /// Returns the number of keys.
    pub fn len(&self) -> (r: usize)
        requires
            self.inv(),
        ensures
            r == self@.len(),
            r == self.seq().len(),
    {
        proof {
            self.lemma_inv();
        }
        self.items.len()
    }

    /// Returns whether there are no keys.
    pub fn is_empty(&self) -> (r: bool)
        requires
            self.inv(),
        ensures
            r == (self@ == Set::<K::V>::empty()),
    {
        proof {
            self.lemma_inv();
            if self@.len() == 0 {
                self@.lemma_len0_is_empty();
            }
        }
        self.items.len() == 0
    }

    /// Returns the key at the given position.
    pub fn at(&self, i: usize) -> (r: &K)
        requires
            self.inv(),
            i < self.seq().len(),
        ensures
            r@ == self.seq()[i as int],
            r.inv(),
            self@.contains(r@),
    {
        assert(self.seq()[i as int] == self.items@[i as int]@);
        assert(self.seq().contains(self.seq()[i as int]));
        &self.items[i]
    }

    /// Finds the first position whose key does not come before `key`, and whether it is `key`.
    fn search(&self, key: &K) -> (r: (usize, bool))
        requires
            self.inv(),
            key.inv(),
        ensures
            r.0 <= self.seq().len(),
            forall|i: int| 0 <= i < r.0 ==> key_less::<K>(#[trigger] self.seq()[i], key@),
            forall|i: int|
                r.0 <= i < self.seq().len() ==> (i == r.0 && r.1) || key_less::<K>(
                    key@,
                    #[trigger] self.seq()[i],
                ),
            r.1 ==> r.0 < self.seq().len() && self.seq()[r.0 as int] == key@,
            r.1 == self@.contains(key@),
    {
        let ghost s = self.seq();
        proof {
            self.lemma_inv();
            key.inv_valid();
        }
        let mut lo: usize = 0;
        let mut hi: usize = self.items.len();
        while lo < hi
            invariant
                self.inv(),
                key.inv(),
                K::valid(key@),
                s == self.seq(),
                s.len() == self.items@.len(),
                ascending::<K>(s),
                all_valid::<K>(s),
                lo <= hi <= s.len(),
                forall|i: int| 0 <= i < lo ==> key_less::<K>(#[trigger] s[i], key@),
                forall|i: int| hi <= i < s.len() ==> key_less::<K>(key@, #[trigger] s[i]),
            decreases hi - lo,
        {
            let mid = lo + (hi - lo) / 2;
            assert(s[mid as int] == self.items@[mid as int]@);
            assert(self.items@[mid as int].inv());
            match self.items[mid].compare(key) {
                Order::Less => {
                    proof {
                        assert forall|i: int| 0 <= i < mid + 1 implies key_less::<K>(
                            #[trigger] s[i],
                            key@,
                        ) by {
                            if i < mid {
                                assert(key_less::<K>(s[i], s[mid as int]));
                                lex_transitive(
                                    K::code(s[i]),
                                    K::code(s[mid as int]),
                                    K::code(key@),
                                );
                            }
                        }
                    }
                    lo = mid + 1;
                },
                Order::Greater => {
                    proof {
                        key_total::<K>(s[mid as int], key@);
                        assert forall|i: int| mid <= i < s.len() implies key_less::<K>(
                            key@,
                            #[trigger] s[i],
                        ) by {
                            if i > mid {
                                assert(key_less::<K>(s[mid as int], s[i]));
                                lex_transitive(
                                    K::code(key@),
                                    K::code(s[mid as int]),
                                    K::code(s[i]),
                                );
                            }
                        }
                    }
                    hi = mid;
                },
                Order::Equal => {
                    proof {
                        code_injective::<K>(s[mid as int], key@);
                        assert forall|i: int| 0 <= i < mid implies key_less::<K>(
                            #[trigger] s[i],
                            key@,
                        ) by {
                            assert(key_less::<K>(s[i], s[mid as int]));
                        }
                        assert forall|i: int| mid < i < s.len() implies key_less::<K>(
                            key@,
                            #[trigger] s[i],
                        ) by {
                            assert(key_less::<K>(s[mid as int], s[i]));
                        }
                        assert(s.contains(key@));
                    }
                    return (mid, true);
                },
            }
        }
        proof {
            if s.contains(key@) {
                let i = choose|i: int| 0 <= i < s.len() && s[i] == key@;
                lex_asymmetric(K::code(s[i]), K::code(key@));
            }
        }
        (lo, false)
    }

    /// Returns whether `key` is in the set.
    pub fn contains(&self, key: &K) -> (r: bool)
        requires
            self.inv(),
            key.inv(),
        ensures
            r == self@.contains(key@),
    {
        self.search(key).1
    }

    /// Adds a key. Returns whether it is new.
    pub fn insert(&mut self, key: K) -> (r: bool)
        requires
            old(self).inv(),
            key.inv(),
        ensures
            final(self).inv(),
            final(self)@ == old(self)@.insert(key@),
            r == !old(self)@.contains(key@),
    {
        let (pos, found) = self.search(&key);
        if found {
            assert(self@ =~= old(self)@.insert(key@));
            return false;
        }
        self.insert_at(pos, key);
        true
    }

    /// Puts a new key at the position where it belongs.
    fn insert_at(&mut self, pos: usize, key: K)
        requires
            old(self).inv(),
            key.inv(),
            pos <= old(self).seq().len(),
            forall|i: int| 0 <= i < pos ==> key_less::<K>(#[trigger] old(self).seq()[i], key@),
            forall|i: int|
                pos <= i < old(self).seq().len() ==> key_less::<K>(
                    key@,
                    #[trigger] old(self).seq()[i],
                ),
        ensures
            final(self).inv(),
            final(self).seq() == old(self).seq().insert(pos as int, key@),
            final(self)@ == old(self)@.insert(key@),
    {
        let ghost s = self.seq();
        let ghost k = key@;
        let ghost items = self.items@;
        self.items.insert(pos, key);
        proof {
            let t = self.seq();
            assert(t =~= s.insert(pos as int, k));
            assert forall|i: int, j: int| 0 <= i < j < t.len() implies #[trigger] key_less::<K>(
                t[i],
                t[j],
            ) by {
                let i0 = if i < pos {
                    i
                } else {
                    i - 1
                };
                let j0 = if j < pos {
                    j
                } else {
                    j - 1
                };
                if i != pos && j != pos {
                    assert(key_less::<K>(s[i0], s[j0]));
                } else if i == pos {
                    assert(key_less::<K>(k, s[j0]));
                } else {
                    assert(key_less::<K>(s[i0], k));
                }
            }
            assert forall|i: int| 0 <= i < self.items@.len() implies (
            #[trigger] self.items@[i]).inv() by {
                if i < pos {
                    assert(self.items@[i] == items[i]);
                } else if i > pos {
                    assert(self.items@[i] == items[i - 1]);
                }
            }
            assert forall|x: K::V| t.to_set().contains(x) == s.to_set().insert(k).contains(x) by {
                if s.contains(x) {
                    let i = choose|i: int| 0 <= i < s.len() && s[i] == x;
                    if i < pos {
                        assert(t[i] == x);
                    } else {
                        assert(t[i + 1] == x);
                    }
                }
                if x == k {
                    assert(t[pos as int] == x);
                }
                if t.contains(x) {
                    let i = choose|i: int| 0 <= i < t.len() && t[i] == x;
                    if i < pos {
                        assert(s[i] == x);
                    } else if i > pos {
                        assert(s[i - 1] == x);
                    }
                }
            }
            assert(self@ =~= old(self)@.insert(k));
        }
    }

    /// Removes the key at a position.
    fn remove_at(&mut self, pos: usize)
        requires
            old(self).inv(),
            pos < old(self).seq().len(),
        ensures
            final(self).inv(),
            final(self).seq() == old(self).seq().remove(pos as int),
            final(self)@ == old(self)@.remove(old(self).seq()[pos as int]),
    {
        let ghost s = self.seq();
        let ghost k = s[pos as int];
        let ghost items = self.items@;
        proof {
            self.lemma_inv();
        }
        let _ = self.items.remove(pos);
        proof {
            let t = self.seq();
            assert(t =~= s.remove(pos as int));
            assert forall|i: int, j: int| 0 <= i < j < t.len() implies #[trigger] key_less::<K>(
                t[i],
                t[j],
            ) by {
                let i0 = if i < pos {
                    i
                } else {
                    i + 1
                };
                let j0 = if j < pos {
                    j
                } else {
                    j + 1
                };
                assert(key_less::<K>(s[i0], s[j0]));
            }
            assert forall|i: int| 0 <= i < self.items@.len() implies (
            #[trigger] self.items@[i]).inv() by {
                if i < pos {
                    assert(self.items@[i] == items[i]);
                } else {
                    assert(self.items@[i] == items[i + 1]);
                }
            }
            assert forall|x: K::V| t.to_set().contains(x) == s.to_set().remove(k).contains(x) by {
                if s.contains(x) && x != k {
                    let i = choose|i: int| 0 <= i < s.len() && s[i] == x;
                    if i < pos {
                        assert(t[i] == x);
                    } else {
                        assert(t[i - 1] == x);
                    }
                }
                if t.contains(x) {
                    let i = choose|i: int| 0 <= i < t.len() && t[i] == x;
                    if i < pos {
                        assert(s[i] == x);
                    } else {
                        assert(s[i + 1] == x);
                    }
                }
            }
            assert(self@ =~= old(self)@.remove(k));
        }
    }

    /// Removes a key. Returns whether it was there.
    pub fn remove(&mut self, key: &K) -> (r: bool)
        requires
            old(self).inv(),
            key.inv(),
        ensures
            final(self).inv(),
            final(self)@ == old(self)@.remove(key@),
            r == old(self)@.contains(key@),
    {
        let (pos, found) = self.search(key);
        if found {
            self.remove_at(pos);
            true
        } else {
            assert(self@ =~= old(self)@.remove(key@));
            false
        }
    }

    /// Returns whether two sets hold the same keys.
    pub fn same(&self, other: &Self) -> (r: bool)
        requires
            self.inv(),
            other.inv(),
        ensures
            r == (self@ == other@),
    {
        proof {
            self.lemma_inv();
            other.lemma_inv();
        }
        if self.items.len() != other.items.len() {
            return false;
        }
        let mut i: usize = 0;
        while i < self.items.len()
            invariant
                self.inv(),
                other.inv(),
                all_valid::<K>(self.seq()),
                all_valid::<K>(other.seq()),
                self.seq() == sorted::<K>(self@),
                other.seq() == sorted::<K>(other@),
                self.seq().len() == self.items@.len(),
                other.seq().len() == other.items@.len(),
                self.items@.len() == other.items@.len(),
                i <= self.items@.len(),
                forall|j: int| 0 <= j < i ==> self.seq()[j] == other.seq()[j],
            decreases self.items@.len() - i,
        {
            assert(self.items@[i as int].inv());
            assert(other.items@[i as int].inv());
            match self.items[i].compare(&other.items[i]) {
                Order::Equal => {
                    proof {
                        code_injective::<K>(self.seq()[i as int], other.seq()[i as int]);
                    }
                },
                Order::Less => {
                    proof {
                        lex_asymmetric(
                            K::code(self.seq()[i as int]),
                            K::code(other.seq()[i as int]),
                        );
                    }
                    return false;
                },
                Order::Greater => {
                    assert(self.seq()[i as int] != other.seq()[i as int]);
                    return false;
                },
            }
            i += 1;
        }
        assert(self.seq() =~= other.seq());
        true
    }
}

/// A map that keeps its keys in ascending order.
#[derive(Debug, PartialEq, Eq)]
pub struct OrderedMap<K, T> {
    keys: OrderedSet<K>,
    values: Vec<T>,
}

impl<K: Key, T: Checked> View for OrderedMap<K, T> {
    type V = Map<K::V, T::V>;

    closed spec fn view(&self) -> Map<K::V, T::V> {
        Map::new(
            |k: K::V| self.keys@.contains(k) && self.keys.seq().index_of(k) < self.values@.len(),
            |k: K::V| self.values@[self.keys.seq().index_of(k)]@,
        )
    }
}

impl<K: Key, T: Checked> Checked for OrderedMap<K, T> {
    closed spec fn inv(&self) -> bool {
        &&& self.keys.inv()
        &&& self.values@.len() == self.keys.seq().len()
        &&& forall|i: int| 0 <= i < self.values@.len() ==> (#[trigger] self.values@[i]).inv()
    }

    fn duplicate(&self) -> (r: Self)
        ensures
            r.seq() == self.seq(),
    {
        let mut values: Vec<T> = Vec::new();
        let mut i: usize = 0;
        while i < self.values.len()
            invariant
                i <= self.values@.len(),
                values@.len() == i,
                forall|j: int|
                    0 <= j < i ==> (#[trigger] values@[j])@ == self.values@[j]@ && (
                    self.values@[j].inv() ==> values@[j].inv()),
            decreases self.values@.len() - i,
        {
            values.push(self.values[i].duplicate());
            i += 1;
        }
        let r = OrderedMap { keys: self.keys.duplicate(), values };
        proof {
            assert(forall|k: K::V| r@.dom().contains(k) == self@.dom().contains(k));
            assert forall|k: K::V| self@.dom().contains(k) implies r@[k] == self@[k] by {
                let s = self.keys.seq();
                assert(s.contains(k));
                let i = s.index_of(k);
                assert(0 <= i < s.len() && s[i] == k);
                if i < values@.len() {
                    assert(values@[i]@ == self.values@[i]@);
                }
            }
            assert(r@ =~= self@);
        }
        r
    }
}

impl<K: Key, T: Checked> OrderedMap<K, T> {
    /// The keys in the order in which they stand.
    pub closed spec fn seq(&self) -> Seq<K::V> {
        self.keys.seq()
    }

    /// The keys stand in ascending order, each of them once.
    pub proof fn lemma_inv(&self)
        requires
            self.inv(),
        ensures
            ascending::<K>(self.seq()),
            all_valid::<K>(self.seq()),
            self.seq().no_duplicates(),
            self.seq().to_set() == self@.dom(),
            self.seq() == sorted::<K>(self@.dom()),
            self@.dom().finite(),
            self@.dom().len() == self.seq().len(),
            forall|i: int|
                0 <= i < self.seq().len() ==> self@.dom().contains(#[trigger] self.seq()[i]),
    {
        self.keys.lemma_inv();
        assert(self.seq().to_set() =~= self@.dom());
        assert forall|i: int| 0 <= i < self.seq().len() implies self@.dom().contains(
            #[trigger] self.seq()[i],
        ) by {
            assert(self.seq().contains(self.seq()[i]));
        }
    }

    /// Each value that the map holds is that of some value whose invariant holds.
    pub proof fn lemma_value_valid(&self, k: K::V) where T: Coded
        requires
            self.inv(),
            self@.dom().contains(k),
        ensures
            T::valid(self@[k]),
    {
        self.lemma_inv();
        assert(self.seq().contains(k));
        let i = choose|i: int| 0 <= i < self.seq().len() && self.seq()[i] == k;
        self.lemma_value(i);
        assert(self.values@[i].inv());
        self.values@[i].inv_valid();
    }

    /// Some value whose invariant holds has the model that the map has for a key.
    pub proof fn value_of(&self, k: K::V) -> (v: T)
        requires
            self.inv(),
            self@.dom().contains(k),
        ensures
            v.inv(),
            v@ == self@[k],
    {
        self.lemma_inv();
        assert(self.seq().contains(k));
        let i = choose|i: int| 0 <= i < self.seq().len() && self.seq()[i] == k;
        self.lemma_value(i);
        assert(self.values@[i].inv());
        self.values@[i]
    }

    /// The value at a position belongs to the key at that position.
    proof fn lemma_value(&self, i: int)
        requires
            self.inv(),
            0 <= i < self.seq().len(),
        ensures
            self@.dom().contains(self.seq()[i]),
            self@[self.seq()[i]] == self.values@[i]@,
    {
        self.lemma_inv();
        let s = self.keys.seq();
        assert(s.contains(s[i]));
        let j = s.index_of(s[i]);
        assert(0 <= j < s.len() && s[j] == s[i]);
    }

    /// Returns an empty map.
    pub fn new() -> (r: Self)
        ensures
            r.inv(),
            r@ == Map::<K::V, T::V>::empty(),
    {
        let r = OrderedMap { keys: OrderedSet::new(), values: Vec::new() };
        assert(r@ =~= Map::<K::V, T::V>::empty());
        r
    }

    /// Returns the number of keys.
    pub fn len(&self) -> (r: usize)
        requires
            self.inv(),
        ensures
            r == self@.dom().len(),
            r == self.seq().len(),
    {
        proof {
            self.lemma_inv();
        }
        self.keys.len()
    }

    /// Returns the key at the given position.
    pub fn key_at(&self, i: usize) -> (r: &K)
        requires
            self.inv(),
            i < self.seq().len(),
        ensures
            r@ == self.seq()[i as int],
            r.inv(),
            self@.dom().contains(r@),
    {
        self.keys.at(i)
    }

    /// Returns the value that belongs to the key at the given position.
    pub fn value_at(&self, i: usize) -> (r: &T)
        requires
            self.inv(),
            i < self.seq().len(),
        ensures
            self@.dom().contains(self.seq()[i as int]),
            r@ == self@[self.seq()[i as int]],
            r.inv(),
    {
        proof {
            self.lemma_value(i as int);
        }
        assert(self.values@[i as int].inv());
        &self.values[i]
    }

    /// Returns the value that belongs to the key at the given position, to be changed.
    pub fn value_mut(&mut self, i: usize) -> (r: &mut T)
        requires
            old(self).inv(),
            i < old(self).seq().len(),
        ensures
            old(self)@.dom().contains(old(self).seq()[i as int]),
            r@ == old(self)@[old(self).seq()[i as int]],
            r.inv(),
            final(self).seq() == old(self).seq(),
            final(r).inv() ==> final(self).inv(),
            final(r).inv() ==> final(self)@ == old(self)@.insert(
                old(self).seq()[i as int],
                final(r)@,
            ),
    {
        proof {
            self.lemma_inv();
            self.lemma_value(i as int);
        }
        assert(self.values@[i as int].inv());
        &mut self.values[i]
    }

    /// Returns the keys.
    pub fn keys(&self) -> (r: OrderedSet<K>)
        requires
            self.inv(),
        ensures
            r.inv(),
            r@ == self@.dom(),
            r.seq() == self.seq(),
    {
        proof {
            self.lemma_inv();
        }
        self.keys.duplicate()
    }

    /// Returns whether there is a value for `key`.
    pub fn contains_key(&self, key: &K) -> (r: bool)
        requires
            self.inv(),
            key.inv(),
        ensures
            r == self@.dom().contains(key@),
    {
        self.keys.contains(key)
    }

    /// Returns the value for `key`, if there is one.
    pub fn get(&self, key: &K) -> (r: Option<&T>)
        requires
            self.inv(),
            key.inv(),
        ensures
            match r {
                Some(v) => self@.dom().contains(key@) && v@ == self@[key@] && v.inv(),
                None => !self@.dom().contains(key@),
            },
    {
        let (pos, found) = self.keys.search(key);
        if found {
            Some(self.value_at(pos))
        } else {
            None
        }
    }

    /// Returns the position of `key`, if it is in the map.
    pub fn position(&self, key: &K) -> (r: Option<usize>)
        requires
            self.inv(),
            key.inv(),
        ensures
            match r {
                Some(i) => i < self.seq().len() && self.seq()[i as int] == key@,
                None => !self@.dom().contains(key@),
            },
    {
        let (pos, found) = self.keys.search(key);
        if found {
            Some(pos)
        } else {
            None
        }
    }

    /// Sets the value for `key`, and returns the one that it had before.
    pub fn insert(&mut self, key: K, value: T) -> (r: Option<T>)
        requires
            old(self).inv(),
            key.inv(),
            value.inv(),
        ensures
            final(self).inv(),
            final(self)@ == old(self)@.insert(key@, value@),
            match r {
                Some(v) => old(self)@.dom().contains(key@) && v@ == old(self)@[key@] && v.inv(),
                None => !old(self)@.dom().contains(key@),
            },
    {
        let ghost k = key@;
        let ghost v = value@;
        let ghost s = self.seq();
        let ghost m = self@;
        proof {
            self.lemma_inv();
        }
        let (pos, found) = self.keys.search(&key);
        if found {
            proof {
                self.lemma_value(pos as int);
            }
            assert(self.values@[pos as int].inv());
            let mut slot = value;
            let target = self.value_mut(pos);
            std::mem::swap(target, &mut slot);
            return Some(slot);
        }
        let ghost before = *self;
        self.keys.insert_at(pos, key);
        self.values.insert(pos, value);
        proof {
            assert forall|i: int| 0 <= i < self.values@.len() implies (
            #[trigger] self.values@[i]).inv() by {
                if i < pos {
                    assert(self.values@[i] == before.values@[i]);
                } else if i > pos {
                    assert(self.values@[i] == before.values@[i - 1]);
                }
            }
            let t = self.seq();
            assert forall|x: K::V| m.insert(k, v).dom().contains(x) implies self@[x] == m.insert(
                k,
                v,
            )[x] by {
                if x == k {
                    assert(t[pos as int] == k);
                    self.lemma_value(pos as int);
                } else {
                    assert(s.contains(x));
                    let i = choose|i: int| 0 <= i < s.len() && s[i] == x;
                    before.lemma_value(i);
                    let j = if i < pos {
                        i
                    } else {
                        i + 1
                    };
                    assert(t[j] == x);
                    self.lemma_value(j);
                    assert(self.values@[j] == before.values@[i]);
                }
            }
            assert(self@.dom() =~= m.insert(k, v).dom());
            assert(self@ =~= m.insert(k, v));
        }
        None
    }

    /// Removes `key`, and returns its value.
    pub fn remove(&mut self, key: &K) -> (r: Option<T>)
        requires
            old(self).inv(),
            key.inv(),
        ensures
            final(self).inv(),
            final(self)@ == old(self)@.remove(key@),
            match r {
                Some(v) => old(self)@.dom().contains(key@) && v@ == old(self)@[key@] && v.inv(),
                None => !old(self)@.dom().contains(key@),
            },
    {
        let ghost k = key@;
        let ghost s = self.seq();
        let ghost m = self@;
        proof {
            self.lemma_inv();
        }
        let (pos, found) = self.keys.search(key);
        if !found {
            assert(self@ =~= m.remove(k));
            return None;
        }
        let ghost before = *self;
        proof {
            self.lemma_value(pos as int);
        }
        assert(self.values@[pos as int].inv());
        self.keys.remove_at(pos);
        let value = self.values.remove(pos);
        proof {
            assert forall|i: int| 0 <= i < self.values@.len() implies (
            #[trigger] self.values@[i]).inv() by {
                if i < pos {
                    assert(self.values@[i] == before.values@[i]);
                } else {
                    assert(self.values@[i] == before.values@[i + 1]);
                }
            }
            let t = self.seq();
            assert forall|x: K::V| m.remove(k).dom().contains(x) implies self@[x] == m.remove(
                k,
            )[x] by {
                assert(s.contains(x));
                let i = choose|i: int| 0 <= i < s.len() && s[i] == x;
                before.lemma_value(i);
                let j = if i < pos {
                    i
                } else {
                    i - 1
                };
                assert(t[j] == x);
                self.lemma_value(j);
                assert(self.values@[j] == before.values@[i]);
            }
            assert(self@.dom() =~= m.remove(k).dom());
            assert(self@ =~= m.remove(k));
        }
        Some(value)
    }
}

} // verus!
