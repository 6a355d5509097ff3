//! Dictionary order on byte codes, and the keys that ordered collections are built from.

use vstd::prelude::*;

verus! {

/// The outcome of comparing two values.
#[derive(Clone, Copy, Debug, PartialEq, Eq, Structural)]
pub enum Order {
    Less,
    Equal,
    Greater,
}

/// `a` and `b` agree before position `k`, and there `a` ends or holds the smaller byte.
pub open spec fn lex_less_at(a: Seq<u8>, b: Seq<u8>, k: int) -> bool {
    &&& 0 <= k <= a.len()
    &&& k < b.len()
    &&& forall|i: int| 0 <= i < k ==> a[i] == b[i]
    &&& k == a.len() || a[k] < b[k]
}

/// `a` comes strictly before `b` in dictionary order.
pub open spec fn lex_less(a: Seq<u8>, b: Seq<u8>) -> bool {
    exists|k: int| lex_less_at(a, b, k)
}

/// How `a` compares to `b` in dictionary order.
pub open spec fn lex_order(a: Seq<u8>, b: Seq<u8>) -> Order {
    if lex_less(a, b) {
        Order::Less
    } else if a == b {
        Order::Equal
    } else {
        Order::Greater
    }
}

/// Dictionary order is irreflexive and asymmetric.
pub proof fn lex_asymmetric(a: Seq<u8>, b: Seq<u8>)
    requires
        lex_less(a, b),
    ensures
        !lex_less(b, a),
        a != b,
{
    let k = choose|k: int| lex_less_at(a, b, k);
    if lex_less(b, a) {
        let j = choose|j: int| lex_less_at(b, a, j);
        if j < k {
            assert(a[j] == b[j]);
        } else if k < j {
            assert(b[k] == a[k]);
        }
    }
    if a == b {
        assert(a[k] == b[k]);
    }
}

/// Dictionary order is transitive.
pub proof fn lex_transitive(a: Seq<u8>, b: Seq<u8>, c: Seq<u8>)
    requires
        lex_less(a, b),
        lex_less(b, c),
    ensures
        lex_less(a, c),
{
    let k = choose|k: int| lex_less_at(a, b, k);
    let j = choose|j: int| lex_less_at(b, c, j);
    if j < k {
        assert(a[j] == b[j]);
        assert(lex_less_at(a, c, j));
    } else {
        assert(lex_less_at(a, c, k)) by {
            if k < j {
                assert(b[k] == c[k]);
            }
        }
    }
}

/// The first position from `k` on where two sequences that agree before `k` differ or end.
proof fn lex_first_difference(a: Seq<u8>, b: Seq<u8>, k: int) -> (d: int)
    requires
        0 <= k <= a.len(),
        k <= b.len(),
        forall|i: int| 0 <= i < k ==> a[i] == b[i],
    ensures
        k <= d <= a.len(),
        d <= b.len(),
        forall|i: int| 0 <= i < d ==> a[i] == b[i],
        d == a.len() || d == b.len() || a[d] != b[d],
    decreases a.len() - k,
{
    if k < a.len() && k < b.len() && a[k] == b[k] {
        lex_first_difference(a, b, k + 1)
    } else {
        k
    }
}

/// Any two sequences are equal or one comes before the other.
pub proof fn lex_total(a: Seq<u8>, b: Seq<u8>)
    ensures
        lex_less(a, b) || a == b || lex_less(b, a),
{
    let d = lex_first_difference(a, b, 0);
    if d == a.len() && d == b.len() {
        assert(a =~= b);
    } else if d == a.len() || (d < b.len() && a[d] < b[d]) {
        assert(lex_less_at(a, b, d));
    } else {
        assert(lex_less_at(b, a, d));
    }
}

/// Of two concatenations, the one is a prefix of the other only if the first parts are comparable
/// by the prefix relation; and where the first parts are equal, the second parts are in it.
pub proof fn prefix_of_concat(a1: Seq<u8>, a2: Seq<u8>, b1: Seq<u8>, b2: Seq<u8>)
    requires
        (a1 + a2).is_prefix_of(b1 + b2),
    ensures
        a1.is_prefix_of(b1) || b1.is_prefix_of(a1),
        a1 == b1 ==> a2.is_prefix_of(b2),
{
    let a = a1 + a2;
    let b = b1 + b2;
    assert forall|i: int| 0 <= i < a.len() implies a[i] == b[i] by {
        assert(b.subrange(0, a.len() as int)[i] == a[i]);
    }
    if a1.len() <= b1.len() {
        assert forall|i: int| 0 <= i < a1.len() implies a1[i] == b1[i] by {
            assert(a[i] == b[i]);
        }
        assert(b1.subrange(0, a1.len() as int) =~= a1);
    } else {
        assert forall|i: int| 0 <= i < b1.len() implies a1[i] == b1[i] by {
            assert(a[i] == b[i]);
        }
        assert(a1.subrange(0, b1.len() as int) =~= b1);
    }
    if a1 == b1 {
        assert forall|i: int| 0 <= i < a2.len() implies a2[i] == b2[i] by {
            assert(a[i + a1.len()] == b[i + a1.len()]);
        }
        assert(b2.subrange(0, a2.len() as int) =~= a2);
    }
}

/// Concatenations whose first parts have the same length compare by them, or where they are equal
/// by the second parts.
pub proof fn lex_of_concat(a1: Seq<u8>, a2: Seq<u8>, b1: Seq<u8>, b2: Seq<u8>)
    requires
        a1.len() == b1.len(),
    ensures
        a1 == b1 ==> lex_order(a1 + a2, b1 + b2) == lex_order(a2, b2),
        a1 != b1 ==> lex_order(a1 + a2, b1 + b2) == lex_order(a1, b1),
{
    let a = a1 + a2;
    let b = b1 + b2;
    let n = a1.len() as int;
    if a1 == b1 {
        lex_total(a2, b2);
        if lex_less(a2, b2) {
            let k = choose|k: int| lex_less_at(a2, b2, k);
            assert forall|i: int| 0 <= i < n + k implies a[i] == b[i] by {
                if i >= n {
                    assert(a2[i - n] == b2[i - n]);
                }
            }
            assert(lex_less_at(a, b, n + k));
        } else if lex_less(b2, a2) {
            let k = choose|k: int| lex_less_at(b2, a2, k);
            assert forall|i: int| 0 <= i < n + k implies b[i] == a[i] by {
                if i >= n {
                    assert(b2[i - n] == a2[i - n]);
                }
            }
            assert(lex_less_at(b, a, n + k));
            lex_asymmetric(b, a);
            lex_asymmetric(b2, a2);
        } else {
            assert(a =~= b);
            if lex_less(a, b) {
                lex_asymmetric(a, b);
            }
        }
    } else {
        lex_total(a1, b1);
        if lex_less(a1, b1) {
            let k = choose|k: int| lex_less_at(a1, b1, k);
            assert forall|i: int| 0 <= i < k implies a[i] == b[i] by {
                assert(a1[i] == b1[i]);
            }
            assert(a[k] == a1[k] && b[k] == b1[k]);
            assert(lex_less_at(a, b, k));
        } else {
            let k = choose|k: int| lex_less_at(b1, a1, k);
            assert forall|i: int| 0 <= i < k implies b[i] == a[i] by {
                assert(b1[i] == a1[i]);
            }
            assert(a[k] == a1[k] && b[k] == b1[k]);
            assert(lex_less_at(b, a, k));
            lex_asymmetric(b, a);
            lex_asymmetric(b1, a1);
        }
    }
}

/// Compares two byte strings in dictionary order.
pub fn compare_bytes(a: &[u8], b: &[u8]) -> (o: Order)
    ensures
        o == lex_order(a@, b@),
{
    let mut i: usize = 0;
    while i < a.len() && i < b.len()
        invariant
            i <= a@.len(),
            i <= b@.len(),
            forall|j: int| 0 <= j < i ==> a@[j] == b@[j],
        decreases a@.len() - i,
    {
        if a[i] < b[i] {
            assert(lex_less_at(a@, b@, i as int));
            return Order::Less;
        }
        if b[i] < a[i] {
            proof {
                assert(lex_less_at(b@, a@, i as int));
                lex_asymmetric(b@, a@);
            }
            return Order::Greater;
        }
        i += 1;
    }
    if i < b.len() {
        assert(lex_less_at(a@, b@, i as int));
        return Order::Less;
    }
    if i < a.len() {
        proof {
            assert(lex_less_at(b@, a@, i as int));
            lex_asymmetric(b@, a@);
        }
        return Order::Greater;
    }
    proof {
        assert(a@ =~= b@);
        if lex_less(a@, b@) {
            lex_asymmetric(a@, b@);
        }
    }
    Order::Equal
}

/// Appends bytes.
pub fn push_bytes(out: &mut Vec<u8>, bytes: &[u8])
    ensures
        final(out)@ == old(out)@ + bytes@,
{
    let ghost start = out@;
    let mut i: usize = 0;
    while i < bytes.len()
        invariant
            i <= bytes@.len(),
            out@ == start + bytes@.take(i as int),
        decreases bytes@.len() - i,
    {
        out.push(bytes[i]);
        assert(bytes@.take(i as int).push(bytes@[i as int]) =~= bytes@.take(i + 1));
        i += 1;
    }
    assert(bytes@.take(i as int) =~= bytes@);
}

/// A value with a representation invariant.
pub trait Checked: View + Sized {
    /// The representation invariant.
    spec fn inv(&self) -> bool;

    /// Returns a copy of the value.
    fn duplicate(&self) -> (r: Self)
        ensures
            r@ == self@,
            self.inv() ==> r.inv(),
    ;
}

/// A value that can be written down as bytes.
///
/// No code is a prefix of another one, so that codes can be put one behind the other.
pub trait Coded: Checked {
    /// The byte code of a value.
    spec fn code(v: Self::V) -> Seq<u8>;

    /// The models that values can have.
    spec fn valid(v: Self::V) -> bool;

    /// A value whose representation invariant holds has a valid model.
    proof fn inv_valid(&self)
        requires
            self.inv(),
        ensures
            Self::valid(self@),
    ;

    /// A code determines its value, even where more bytes follow it.
    proof fn code_unique(a: Self::V, b: Self::V)
        requires
            Self::valid(a),
            Self::valid(b),
            Self::code(a).is_prefix_of(Self::code(b)),
        ensures
            a == b,
    ;

    /// Appends the code of the value.
    fn write(&self, out: &mut Vec<u8>)
        requires
            self.inv(),
        ensures
            final(out)@ == old(out)@ + Self::code(self@),
    ;
}

/// A value that an ordered collection can hold as a key. Keys are ordered by their codes.
pub trait Key: Coded {
    /// Compares two keys by their codes.
    fn compare(&self, other: &Self) -> (o: Order)
        requires
            self.inv(),
            other.inv(),
        ensures
            o == lex_order(Self::code(self@), Self::code(other@)),
    ;
}

/// The key `a` comes before the key `b`.
pub open spec fn key_less<K: Key>(a: K::V, b: K::V) -> bool {
    lex_less(K::code(a), K::code(b))
}

/// Two keys with the same code are the same.
pub proof fn code_injective<K: Coded>(a: K::V, b: K::V)
    requires
        K::valid(a),
        K::valid(b),
        K::code(a) == K::code(b),
    ensures
        a == b,
{
    assert(K::code(b).subrange(0, K::code(b).len() as int) =~= K::code(b));
    K::code_unique(a, b);
}

impl Checked for u64 {
    open spec fn inv(&self) -> bool {
        true
    }

    fn duplicate(&self) -> (r: Self) {
        *self
    }
}

/// Any two keys are the same or one comes before the other.
pub proof fn key_total<K: Key>(a: K::V, b: K::V)
    requires
        K::valid(a),
        K::valid(b),
    ensures
        key_less::<K>(a, b) || a == b || key_less::<K>(b, a),
{
    lex_total(K::code(a), K::code(b));
    if K::code(a) == K::code(b) {
        code_injective::<K>(a, b);
    }
}

} // verus!
