//! Codes of numbers, byte strings, lists and ordered collections.

use crate::order::{code_injective, compare_bytes, lex_asymmetric, lex_order, prefix_of_concat};
use crate::order::{push_bytes, Checked, Coded, Key, Order};
use crate::ordered::{all_valid, ascending, sorted, OrderedMap, OrderedSet};
use vstd::prelude::*;

verus! {

/// The bytes of a number, the most significant one first.
pub open spec fn u64_code(v: u64) -> Seq<u8> {
    seq![
        (v >> 56) as u8,
        (v >> 48) as u8,
        (v >> 40) as u8,
        (v >> 32) as u8,
        (v >> 24) as u8,
        (v >> 16) as u8,
        (v >> 8) as u8,
        v as u8,
    ]
}

proof fn u64_from_bytes(x: u64, y: u64)
    by (bit_vector)
    requires
        (x >> 56) as u8 == (y >> 56) as u8,
        (x >> 48) as u8 == (y >> 48) as u8,
        (x >> 40) as u8 == (y >> 40) as u8,
        (x >> 32) as u8 == (y >> 32) as u8,
        (x >> 24) as u8 == (y >> 24) as u8,
        (x >> 16) as u8 == (y >> 16) as u8,
        (x >> 8) as u8 == (y >> 8) as u8,
        x as u8 == y as u8,
    ensures
        x == y,
{
}

impl Coded for u64 {
    open spec fn code(v: u64) -> Seq<u8> {
        u64_code(v)
    }

    open spec fn valid(v: u64) -> bool {
        true
    }

    proof fn inv_valid(&self) {
    }

    proof fn code_unique(a: u64, b: u64) {
        let x = u64_code(a);
        let y = u64_code(b);
        assert(y.subrange(0, 8) =~= y);
        assert(x[0] == y[0] && x[1] == y[1] && x[2] == y[2] && x[3] == y[3] && x[4] == y[4] && x[5]
            == y[5] && x[6] == y[6] && x[7] == y[7]);
        u64_from_bytes(a, b);
    }

    #[verifier::truncate]
    fn write(&self, out: &mut Vec<u8>) {
        let v: u64 = *self;
        let ghost start = out@;
        out.push((v >> 56) as u8);
        out.push((v >> 48) as u8);
        out.push((v >> 40) as u8);
        out.push((v >> 32) as u8);
        out.push((v >> 24) as u8);
        out.push((v >> 16) as u8);
        out.push((v >> 8) as u8);
        out.push(v as u8);
        assert(out@ =~= start + u64_code(v));
    }
}

/// A byte string of fixed length.
#[derive(Clone, Copy, Debug, PartialEq, Eq, PartialOrd, Ord, Hash)]
pub struct Bytes<const N: usize>(pub [u8; N]);

impl<const N: usize> View for Bytes<N> {
    type V = Bytes<N>;

    open spec fn view(&self) -> Bytes<N> {
        *self
    }
}

impl<const N: usize> Checked for Bytes<N> {
    open spec fn inv(&self) -> bool {
        true
    }

    fn duplicate(&self) -> (r: Self) {
        *self
    }
}

impl<const N: usize> Coded for Bytes<N> {
    open spec fn code(v: Bytes<N>) -> Seq<u8> {
        v.0@
    }

    open spec fn valid(v: Bytes<N>) -> bool {
        true
    }

    proof fn inv_valid(&self) {
    }

    proof fn code_unique(a: Bytes<N>, b: Bytes<N>) {
        assert(b.0@.subrange(0, a.0@.len() as int) =~= b.0@);
        assert(a.0 =~= b.0);
    }

    fn write(&self, out: &mut Vec<u8>) {
        push_bytes(out, &self.0);
    }
}

impl<const N: usize> Key for Bytes<N> {
    fn compare(&self, other: &Self) -> (o: Order) {
        compare_bytes(&self.0, &other.0)
    }
}

impl<const N: usize> Bytes<N> {
    /// Returns whether both byte strings are the same.
    pub fn is(&self, other: &Bytes<N>) -> (r: bool)
        ensures
            r == (self == other),
    {
        match self.compare(other) {
            Order::Equal => {
                assert(self.0 =~= other.0);
                true
            },
            Order::Less => {
                proof {
                    lex_asymmetric(self.0@, other.0@);
                }
                false
            },
            Order::Greater => false,
        }
    }
}

/// Where a code with bytes behind it is a prefix of another one, the values are the same, and the
/// bytes behind the one are a prefix of those behind the other.
pub proof fn peel<T: Coded>(a: T::V, ra: Seq<u8>, b: T::V, rb: Seq<u8>)
    requires
        T::valid(a),
        T::valid(b),
        (T::code(a) + ra).is_prefix_of(T::code(b) + rb),
    ensures
        a == b,
        ra.is_prefix_of(rb),
{
    prefix_of_concat(T::code(a), ra, T::code(b), rb);
    if T::code(a).is_prefix_of(T::code(b)) {
        T::code_unique(a, b);
    } else {
        T::code_unique(b, a);
    }
}

/// The code of a list: a one before each element, and a zero at the end.
pub open spec fn list_code<T: Coded>(s: Seq<T::V>) -> Seq<u8>
    decreases s.len(),
{
    if s.len() == 0 {
        seq![0u8]
    } else {
        seq![1u8] + (T::code(s[0]) + list_code::<T>(s.drop_first()))
    }
}

/// All elements of a list are valid.
pub open spec fn list_valid<T: Coded>(s: Seq<T::V>) -> bool {
    forall|i: int| 0 <= i < s.len() ==> T::valid(#[trigger] s[i])
}

/// The code of a list determines the list.
pub proof fn list_code_unique<T: Coded>(a: Seq<T::V>, b: Seq<T::V>)
    requires
        list_valid::<T>(a),
        list_valid::<T>(b),
        list_code::<T>(a).is_prefix_of(list_code::<T>(b)),
    ensures
        a == b,
    decreases a.len(),
{
    let ca = list_code::<T>(a);
    let cb = list_code::<T>(b);
    assert(ca[0] == cb.subrange(0, ca.len() as int)[0]);
    assert(ca[0] == cb[0]);
    if a.len() == 0 {
        assert(ca[0] == 0);
        if b.len() > 0 {
            assert(cb[0] == 1);
        }
        assert(a =~= b);
    } else {
        assert(ca[0] == 1);
        if b.len() == 0 {
            assert(cb[0] == 0);
        }
        let ta = list_code::<T>(a.drop_first());
        let tb = list_code::<T>(b.drop_first());
        prefix_of_concat(seq![1u8], T::code(a[0]) + ta, seq![1u8], T::code(b[0]) + tb);
        prefix_of_concat(T::code(a[0]), ta, T::code(b[0]), tb);
        if T::code(a[0]).is_prefix_of(T::code(b[0])) {
            T::code_unique(a[0], b[0]);
        } else {
            T::code_unique(b[0], a[0]);
        }
        assert forall|i: int| 0 <= i < a.drop_first().len() implies T::valid(
            #[trigger] a.drop_first()[i],
        ) by {
            assert(T::valid(a[i + 1]));
        }
        assert forall|i: int| 0 <= i < b.drop_first().len() implies T::valid(
            #[trigger] b.drop_first()[i],
        ) by {
            assert(T::valid(b[i + 1]));
        }
        list_code_unique::<T>(a.drop_first(), b.drop_first());
        assert(a =~= seq![a[0]] + a.drop_first());
        assert(b =~= seq![b[0]] + b.drop_first());
    }
}

/// The models of the elements of a vector.
pub open spec fn models<T: View>(s: Seq<T>) -> Seq<T::V> {
    s.map_values(|x: T| x@)
}

/// Appends the code of a list.
pub fn write_list<T: Coded>(items: &Vec<T>, out: &mut Vec<u8>)
    requires
        forall|i: int| 0 <= i < items@.len() ==> (#[trigger] items@[i]).inv(),
    ensures
        final(out)@ == old(out)@ + list_code::<T>(models(items@)),
{
    let ghost start = out@;
    let ghost s = models(items@);
    let mut i: usize = 0;
    assert(s.skip(0) =~= s);
    while i < items.len()
        invariant
            forall|i: int| 0 <= i < items@.len() ==> (#[trigger] items@[i]).inv(),
            s == models(items@),
            i <= items@.len(),
            start + list_code::<T>(s) == out@ + list_code::<T>(s.skip(i as int)),
        decreases items@.len() - i,
    {
        let ghost before = out@;
        let ghost rest = s.skip(i as int);
        proof {
            assert(rest[0] == items@[i as int]@);
            assert(rest.drop_first() =~= s.skip(i + 1));
        }
        out.push(1u8);
        items[i].write(out);
        assert(before + list_code::<T>(rest) =~= out@ + list_code::<T>(s.skip(i + 1)));
        i += 1;
    }
    out.push(0u8);
    assert(s.skip(i as int).len() == 0);
    assert(out@ =~= start + list_code::<T>(s));
}

/// A set of keys that an ordered set can hold.
pub open spec fn set_valid<K: Key>(s: Set<K::V>) -> bool {
    let q = sorted::<K>(s);
    q.to_set() == s && ascending::<K>(q) && all_valid::<K>(q)
}

impl<K: Key> Coded for OrderedSet<K> {
    open spec fn code(v: Set<K::V>) -> Seq<u8> {
        list_code::<K>(sorted::<K>(v))
    }

    open spec fn valid(v: Set<K::V>) -> bool {
        set_valid::<K>(v)
    }

    proof fn inv_valid(&self) {
        self.lemma_inv();
    }

    proof fn code_unique(a: Set<K::V>, b: Set<K::V>) {
        list_code_unique::<K>(sorted::<K>(a), sorted::<K>(b));
    }

    fn write(&self, out: &mut Vec<u8>) {
        proof {
            self.lemma_inv();
        }
        let ghost start = out@;
        let ghost s = self.seq();
        let mut i: usize = 0;
        assert(s.skip(0) =~= s);
        while i < self.len()
            invariant
                self.inv(),
                s == self.seq(),
                i <= s.len(),
                start + list_code::<K>(s) == out@ + list_code::<K>(s.skip(i as int)),
            decreases s.len() - i,
        {
            let ghost before = out@;
            let ghost rest = s.skip(i as int);
            assert(rest.drop_first() =~= s.skip(i + 1));
            out.push(1u8);
            self.at(i).write(out);
            assert(before + list_code::<K>(rest) =~= out@ + list_code::<K>(s.skip(i + 1)));
            i += 1;
        }
        out.push(0u8);
        assert(s.skip(i as int).len() == 0);
        assert(out@ =~= start + list_code::<K>(s));
    }
}

/// The code of the entries of a map for a list of its keys.
pub open spec fn entries_code<K: Key, T: Coded>(keys: Seq<K::V>, m: Map<K::V, T::V>) -> Seq<u8>
    decreases keys.len(),
{
    if keys.len() == 0 {
        seq![0u8]
    } else {
        seq![1u8] + (K::code(keys[0]) + (T::code(m[keys[0]]) + entries_code::<K, T>(
            keys.drop_first(),
            m,
        )))
    }
}

/// The code of the entries determines the keys and their values.
proof fn entries_code_unique<K: Key, T: Coded>(
    p: Seq<K::V>,
    a: Map<K::V, T::V>,
    q: Seq<K::V>,
    b: Map<K::V, T::V>,
)
    requires
        all_valid::<K>(p),
        all_valid::<K>(q),
        forall|i: int| 0 <= i < p.len() ==> T::valid(a[#[trigger] p[i]]),
        forall|i: int| 0 <= i < q.len() ==> T::valid(b[#[trigger] q[i]]),
        entries_code::<K, T>(p, a).is_prefix_of(entries_code::<K, T>(q, b)),
    ensures
        p == q,
        forall|i: int| 0 <= i < p.len() ==> a[#[trigger] p[i]] == b[p[i]],
    decreases p.len(),
{
    let ca = entries_code::<K, T>(p, a);
    let cb = entries_code::<K, T>(q, b);
    assert(ca[0] == cb.subrange(0, ca.len() as int)[0]);
    assert(ca[0] == cb[0]);
    if p.len() == 0 {
        assert(ca[0] == 0);
        if q.len() > 0 {
            assert(cb[0] == 1);
        }
        assert(p =~= q);
    } else {
        assert(ca[0] == 1);
        if q.len() == 0 {
            assert(cb[0] == 0);
        }
        let ta = entries_code::<K, T>(p.drop_first(), a);
        let tb = entries_code::<K, T>(q.drop_first(), b);
        let va = T::code(a[p[0]]);
        let vb = T::code(b[q[0]]);
        prefix_of_concat(
            seq![1u8],
            K::code(p[0]) + (va + ta),
            seq![1u8],
            K::code(q[0]) + (vb + tb),
        );
        prefix_of_concat(K::code(p[0]), va + ta, K::code(q[0]), vb + tb);
        if K::code(p[0]).is_prefix_of(K::code(q[0])) {
            K::code_unique(p[0], q[0]);
        } else {
            K::code_unique(q[0], p[0]);
        }
        prefix_of_concat(va, ta, vb, tb);
        if va.is_prefix_of(vb) {
            T::code_unique(a[p[0]], b[q[0]]);
        } else {
            T::code_unique(b[q[0]], a[p[0]]);
        }
        let p1 = p.drop_first();
        let q1 = q.drop_first();
        assert forall|i: int| 0 <= i < p1.len() implies K::valid(#[trigger] p1[i]) && T::valid(
            a[p1[i]],
        ) by {
            assert(p1[i] == p[i + 1]);
        }
        assert forall|i: int| 0 <= i < q1.len() implies K::valid(#[trigger] q1[i]) && T::valid(
            b[q1[i]],
        ) by {
            assert(q1[i] == q[i + 1]);
        }
        entries_code_unique::<K, T>(p1, a, q1, b);
        assert(p =~= seq![p[0]] + p1);
        assert(q =~= seq![q[0]] + q1);
        assert forall|i: int| 0 <= i < p.len() implies a[#[trigger] p[i]] == b[p[i]] by {
            if i > 0 {
                assert(p1[i - 1] == p[i]);
            }
        }
    }
}

impl<K: Key, T: Coded> Coded for OrderedMap<K, T> {
    open spec fn code(v: Map<K::V, T::V>) -> Seq<u8> {
        entries_code::<K, T>(sorted::<K>(v.dom()), v)
    }

    open spec fn valid(v: Map<K::V, T::V>) -> bool {
        &&& set_valid::<K>(v.dom())
        &&& forall|k: K::V| #[trigger] v.dom().contains(k) ==> T::valid(v[k])
    }

    proof fn inv_valid(&self) {
        self.lemma_inv();
        assert forall|k: K::V| #[trigger] self@.dom().contains(k) implies T::valid(self@[k]) by {
            self.lemma_value_valid(k);
        }
    }

    proof fn code_unique(a: Map<K::V, T::V>, b: Map<K::V, T::V>) {
        let p = sorted::<K>(a.dom());
        let q = sorted::<K>(b.dom());
        assert forall|i: int| 0 <= i < p.len() implies T::valid(a[#[trigger] p[i]]) by {
            assert(p.contains(p[i]));
            assert(p.to_set().contains(p[i]));
        }
        assert forall|i: int| 0 <= i < q.len() implies T::valid(b[#[trigger] q[i]]) by {
            assert(q.contains(q[i]));
            assert(q.to_set().contains(q[i]));
        }
        entries_code_unique::<K, T>(p, a, q, b);
        assert(a.dom() =~= b.dom());
        assert forall|k: K::V| a.dom().contains(k) implies a[k] == b[k] by {
            assert(p.to_set().contains(k));
            assert(p.contains(k));
            let i = choose|i: int| 0 <= i < p.len() && p[i] == k;
            assert(a[p[i]] == b[p[i]]);
        }
        assert(a =~= b);
    }

    fn write(&self, out: &mut Vec<u8>) {
        proof {
            self.lemma_inv();
        }
        let ghost start = out@;
        let ghost s = self.seq();
        let ghost m = self@;
        let mut i: usize = 0;
        assert(s.skip(0) =~= s);
        while i < self.len()
            invariant
                self.inv(),
                s == self.seq(),
                m == self@,
                i <= s.len(),
                start + entries_code::<K, T>(s, m) == out@ + entries_code::<K, T>(
                    s.skip(i as int),
                    m,
                ),
            decreases s.len() - i,
        {
            let ghost before = out@;
            let ghost rest = s.skip(i as int);
            assert(rest.drop_first() =~= s.skip(i + 1));
            out.push(1u8);
            self.key_at(i).write(out);
            self.value_at(i).write(out);
            assert(before + entries_code::<K, T>(rest, m) =~= out@ + entries_code::<K, T>(
                s.skip(i + 1),
                m,
            ));
            i += 1;
        }
        out.push(0u8);
        assert(s.skip(i as int).len() == 0);
        assert(out@ =~= start + entries_code::<K, T>(s, m));
    }
}

/// Compares two values by writing down their codes.
pub fn compare_codes<T: Coded>(a: &T, b: &T) -> (o: Order)
    requires
        a.inv(),
        b.inv(),
    ensures
        o == lex_order(T::code(a@), T::code(b@)),
        o == Order::Equal <==> a@ == b@,
{
    let mut x: Vec<u8> = Vec::new();
    let mut y: Vec<u8> = Vec::new();
    a.write(&mut x);
    b.write(&mut y);
    proof {
        assert(x@ =~= T::code(a@));
        assert(y@ =~= T::code(b@));
    }
    let o = compare_bytes(x.as_slice(), y.as_slice());
    proof {
        a.inv_valid();
        b.inv_valid();
        if o == Order::Equal {
            code_injective::<T>(a@, b@);
        }
        if a@ == b@ {
            if o == Order::Less {
                lex_asymmetric(x@, y@);
            }
        }
    }
    o
}

} // verus!
