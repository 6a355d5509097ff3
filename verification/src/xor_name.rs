//! Names of the overlay network, and the distances between them.

use crate::order::{lex_asymmetric, lex_less, lex_less_at, lex_total, lex_transitive};
use crate::order::{compare_bytes, push_bytes, Checked, Coded, Key, Order};
use vstd::prelude::*;

verus! {

/// The number of bytes of a name.
pub const XOR_NAME_LEN: usize = 32;

/// The number of bits of a name.
pub const XOR_NAME_BITS: usize = 256;

/// A name of the network.
#[derive(Clone, Copy, Debug, PartialEq, Eq, PartialOrd, Ord, Hash)]
pub struct XorName(pub [u8; 32]);

/// The bit of a byte at the given position, the most significant one first.
pub open spec fn byte_bit(b: u8, i: int) -> bool {
    (b >> ((7 - i) as u8)) & 1u8 == 1u8
}

/// The number of leading positions from `k` on at which both sequences hold the same bits.
pub open spec fn agreed_from(a: Seq<bool>, b: Seq<bool>, k: nat) -> nat
    decreases a.len() - k,
{
    if k < a.len() && k < b.len() && a[k as int] == b[k as int] {
        agreed_from(a, b, k + 1)
    } else {
        k
    }
}

/// The number of leading bits that two sequences share.
pub open spec fn common_len(a: Seq<bool>, b: Seq<bool>) -> nat {
    agreed_from(a, b, 0)
}

proof fn agreed_from_props(a: Seq<bool>, b: Seq<bool>, k: nat)
    requires
        k <= a.len(),
        k <= b.len(),
        forall|i: int| 0 <= i < k ==> a[i] == b[i],
    ensures
        ({
            let d = agreed_from(a, b, k);
            &&& k <= d <= a.len()
            &&& d <= b.len()
            &&& forall|i: int| 0 <= i < d ==> a[i] == b[i]
            &&& d < a.len() && d < b.len() ==> a[d as int] != b[d as int]
        }),
    decreases a.len() - k,
{
    if k < a.len() && k < b.len() && a[k as int] == b[k as int] {
        agreed_from_props(a, b, k + 1);
    }
}

/// The shared leading bits agree, and the bits after them, where both sequences have one, differ.
pub proof fn common_len_props(a: Seq<bool>, b: Seq<bool>)
    ensures
        common_len(a, b) <= a.len(),
        common_len(a, b) <= b.len(),
        forall|i: int| 0 <= i < common_len(a, b) ==> a[i] == b[i],
        common_len(a, b) < a.len() && common_len(a, b) < b.len() ==> a[common_len(a, b) as int]
            != b[common_len(a, b) as int],
{
    agreed_from_props(a, b, 0);
}

/// The properties of `common_len_props` determine the number of shared leading bits.
pub proof fn common_len_unique(a: Seq<bool>, b: Seq<bool>, d: nat)
    requires
        d <= a.len(),
        d <= b.len(),
        forall|i: int| 0 <= i < d ==> a[i] == b[i],
        d < a.len() && d < b.len() ==> a[d as int] != b[d as int],
    ensures
        common_len(a, b) == d,
        common_len(b, a) == d,
{
    common_len_props(a, b);
    common_len_props(b, a);
    let c = common_len(a, b);
    if c < d {
        assert(a[c as int] == b[c as int]);
    } else if d < c {
        assert(a[d as int] == b[d as int]);
    }
    let e = common_len(b, a);
    if e < d {
        assert(a[e as int] == b[e as int]);
    } else if d < e {
        assert(b[d as int] == a[d as int]);
    }
}

/// `a` is nearer to `t` than `b` is: at the first bit where `a` and `b` differ, `a` has the bit of
/// `t`. A sequence is nearer than its own extensions.
///
/// For names this says that the XOR of `a` and `t` is less than that of `b` and `t`.
pub open spec fn nearer(t: Seq<bool>, a: Seq<bool>, b: Seq<bool>) -> bool {
    let k = common_len(a, b);
    &&& k < b.len()
    &&& k == a.len() || a[k as int] == t[k as int]
}

/// `a` is not farther from `t` than `b` is.
pub open spec fn not_farther(t: Seq<bool>, a: Seq<bool>, b: Seq<bool>) -> bool {
    !nearer(t, b, a)
}

/// How the distance of `a` from `t` compares to that of `b`.
pub open spec fn distance_order(t: Seq<bool>, a: Seq<bool>, b: Seq<bool>) -> Order {
    if nearer(t, a, b) {
        Order::Less
    } else if a == b {
        Order::Equal
    } else {
        Order::Greater
    }
}

/// Marks with 1 the bits of `a` that `t` has too, and with 2 the others.
spec fn marks(t: Seq<bool>, a: Seq<bool>) -> Seq<u8> {
    Seq::new(
        a.len(),
        |i: int|
            if a[i] == t[i] {
                1u8
            } else {
                2u8
            },
    )
}

proof fn nearer_is_lex(t: Seq<bool>, a: Seq<bool>, b: Seq<bool>)
    ensures
        nearer(t, a, b) == lex_less(marks(t, a), marks(t, b)),
        (a == b) == (marks(t, a) == marks(t, b)),
{
    let k = common_len(a, b);
    let ma = marks(t, a);
    let mb = marks(t, b);
    common_len_props(a, b);
    if nearer(t, a, b) {
        assert(lex_less_at(ma, mb, k as int));
    }
    if lex_less(ma, mb) {
        let j = choose|j: int| lex_less_at(ma, mb, j);
        assert forall|i: int| 0 <= i < j implies a[i] == b[i] by {
            assert(ma[i] == mb[i]);
        }
        if j < k {
            assert(a[j] == b[j]);
        }
        if k < j {
            assert(ma[k as int] == mb[k as int]);
        }
    }
    if ma == mb {
        assert(a.len() == ma.len() && b.len() == mb.len());
        assert forall|i: int| 0 <= i < a.len() implies a[i] == b[i] by {
            assert(ma[i] == mb[i]);
        }
        assert(a =~= b);
    }
}

/// No sequence is nearer than itself, and of two sequences at most one is nearer.
pub proof fn nearer_asymmetric(t: Seq<bool>, a: Seq<bool>, b: Seq<bool>)
    requires
        nearer(t, a, b),
    ensures
        a != b,
        !nearer(t, b, a),
{
    nearer_is_lex(t, a, b);
    nearer_is_lex(t, b, a);
    lex_asymmetric(marks(t, a), marks(t, b));
}

/// Being nearer is transitive.
pub proof fn nearer_transitive(t: Seq<bool>, a: Seq<bool>, b: Seq<bool>, c: Seq<bool>)
    requires
        nearer(t, a, b),
        nearer(t, b, c),
    ensures
        nearer(t, a, c),
{
    nearer_is_lex(t, a, b);
    nearer_is_lex(t, b, c);
    nearer_is_lex(t, a, c);
    lex_transitive(marks(t, a), marks(t, b), marks(t, c));
}

/// Of two different sequences one is nearer.
pub proof fn nearer_total(t: Seq<bool>, a: Seq<bool>, b: Seq<bool>)
    ensures
        nearer(t, a, b) || a == b || nearer(t, b, a),
{
    nearer_is_lex(t, a, b);
    nearer_is_lex(t, b, a);
    lex_total(marks(t, a), marks(t, b));
}

proof fn byte_from_bits(x: u8, y: u8)
    by (bit_vector)
    requires
        (x >> 7) & 1 == (y >> 7) & 1,
        (x >> 6) & 1 == (y >> 6) & 1,
        (x >> 5) & 1 == (y >> 5) & 1,
        (x >> 4) & 1 == (y >> 4) & 1,
        (x >> 3) & 1 == (y >> 3) & 1,
        (x >> 2) & 1 == (y >> 2) & 1,
        (x >> 1) & 1 == (y >> 1) & 1,
        (x >> 0) & 1 == (y >> 0) & 1,
    ensures
        x == y,
{
}

proof fn set_bit(x: u8, s: u8, j: u8)
    by (bit_vector)
    requires
        s < 8,
        j < 8,
    ensures
        (((x | (1u8 << s)) >> j) & 1u8 == 1u8) == (j == s || (x >> j) & 1u8 == 1u8),
        (((x & !(1u8 << s)) >> j) & 1u8 == 1u8) == (j != s && (x >> j) & 1u8 == 1u8),
{
}

proof fn bit_is_0_or_1(x: u8, j: u8)
    by (bit_vector)
    requires
        j < 8,
    ensures
        (x >> j) & 1u8 == 0u8 || (x >> j) & 1u8 == 1u8,
{
}

impl XorName {
    /// The bit at the given position, the most significant one first.
    pub open spec fn bit_at(&self, i: int) -> bool {
        byte_bit(self.0@[i / 8], i % 8)
    }

    /// The bits of the name, the most significant one first.
    pub open spec fn bits(&self) -> Seq<bool> {
        Seq::new(256, |i: int| self.bit_at(i))
    }

    /// Two names with the same bits are the same.
    pub proof fn bits_injective(a: XorName, b: XorName)
        requires
            a.bits() == b.bits(),
        ensures
            a == b,
    {
        assert forall|i: int| 0 <= i < 32 implies a.0@[i] == b.0@[i] by {
            let x = a.0@[i];
            let y = b.0@[i];
            assert forall|k: int| 0 <= k < 8 implies byte_bit(x, k) == byte_bit(y, k) by {
                let p = 8 * i + k;
                assert(p / 8 == i && p % 8 == k);
                assert(0 <= p < 256);
                assert(a.bits()[p] == a.bit_at(p));
                assert(b.bits()[p] == b.bit_at(p));
            }
            assert(byte_bit(x, 0) == byte_bit(y, 0));
            assert(byte_bit(x, 1) == byte_bit(y, 1));
            assert(byte_bit(x, 2) == byte_bit(y, 2));
            assert(byte_bit(x, 3) == byte_bit(y, 3));
            assert(byte_bit(x, 4) == byte_bit(y, 4));
            assert(byte_bit(x, 5) == byte_bit(y, 5));
            assert(byte_bit(x, 6) == byte_bit(y, 6));
            assert(byte_bit(x, 7) == byte_bit(y, 7));
            bit_is_0_or_1(x, 0);
            bit_is_0_or_1(x, 1);
            bit_is_0_or_1(x, 2);
            bit_is_0_or_1(x, 3);
            bit_is_0_or_1(x, 4);
            bit_is_0_or_1(x, 5);
            bit_is_0_or_1(x, 6);
            bit_is_0_or_1(x, 7);
            bit_is_0_or_1(y, 0);
            bit_is_0_or_1(y, 1);
            bit_is_0_or_1(y, 2);
            bit_is_0_or_1(y, 3);
            bit_is_0_or_1(y, 4);
            bit_is_0_or_1(y, 5);
            bit_is_0_or_1(y, 6);
            bit_is_0_or_1(y, 7);
            byte_from_bits(x, y);
        }
        assert(a.0 =~= b.0);
    }

    /// There is a name with the bit at the given position set to the given value.
    pub proof fn some_with_bit(self, i: int, bit: bool) -> (r: XorName)
        requires
            0 <= i < 256,
        ensures
            r.bits() == self.bits().update(i, bit),
    {
        let shift: u8 = (7 - i % 8) as u8;
        let byte: u8 = self.0@[i / 8];
        let value: u8 = if bit {
            byte | (1u8 << shift)
        } else {
            byte & !(1u8 << shift)
        };
        let r = XorName(vstd::array::spec_array_update(self.0, i / 8, value));
        assert(r.0@ == self.0@.update(i / 8, value));
        assert forall|p: int| 0 <= p < 256 implies r.bits()[p] == self.bits().update(i, bit)[p] by {
            if p / 8 == i / 8 {
                set_bit(byte, shift, (7 - p % 8) as u8);
                assert(p == 8 * (p / 8) + p % 8);
                assert(i == 8 * (i / 8) + i % 8);
            } else {
                assert(r.0@[p / 8] == self.0@[p / 8]);
            }
        }
        assert(r.bits() =~= self.bits().update(i, bit));
        r
    }

    /// Returns the bit at the given position, the most significant one first.
    pub fn bit(&self, i: usize) -> (r: bool)
        requires
            i < XOR_NAME_BITS,
        ensures
            r == self.bits()[i as int],
    {
        let byte: u8 = self.0[i / 8];
        let shift: u8 = (7 - i % 8) as u8;
        (byte >> shift) & 1u8 == 1u8
    }

    /// Returns the name with the bit at the given position set to the given value.
    pub fn with_bit(self, i: usize, bit: bool) -> (r: XorName)
        requires
            i < XOR_NAME_BITS,
        ensures
            r.bits() == self.bits().update(i as int, bit),
    {
        let mut bytes: [u8; 32] = self.0;
        let shift: u8 = (7 - i % 8) as u8;
        let byte: u8 = bytes[i / 8];
        bytes[i / 8] = if bit {
            byte | (1u8 << shift)
        } else {
            byte & !(1u8 << shift)
        };
        let r = XorName(bytes);
        proof {
            assert forall|p: int| 0 <= p < 256 implies r.bits()[p] == self.bits().update(
                i as int,
                bit,
            )[p] by {
                if p / 8 == i / 8 {
                    set_bit(byte, shift, (7 - p % 8) as u8);
                    assert(p == 8 * (p / 8) + p % 8);
                    assert(i == 8 * (i / 8) + i % 8);
                } else {
                    assert(r.0@[p / 8] == self.0@[p / 8]);
                }
            }
            assert(r.bits() =~= self.bits().update(i as int, bit));
        }
        r
    }

    /// Returns the number of leading bits that both names share.
    pub fn common_prefix(&self, other: &XorName) -> (r: usize)
        ensures
            r == common_len(self.bits(), other.bits()),
    {
        let mut i: usize = 0;
        while i < XOR_NAME_BITS && self.bit(i) == other.bit(i)
            invariant
                i <= 256,
                forall|j: int| 0 <= j < i ==> self.bits()[j] == other.bits()[j],
            decreases 256 - i,
        {
            i += 1;
        }
        proof {
            common_len_unique(self.bits(), other.bits(), i as nat);
        }
        i
    }

    /// Compares the distances of two names from this one.
    pub fn order_distance(&self, lhs: &XorName, rhs: &XorName) -> (o: Order)
        ensures
            o == distance_order(self.bits(), lhs.bits(), rhs.bits()),
            o == Order::Equal <==> lhs == rhs,
    {
        let i = lhs.common_prefix(rhs);
        proof {
            common_len_props(lhs.bits(), rhs.bits());
        }
        if i == XOR_NAME_BITS {
            proof {
                assert(lhs.bits() =~= rhs.bits());
                XorName::bits_injective(*lhs, *rhs);
            }
            Order::Equal
        } else if lhs.bit(i) == self.bit(i) {
            proof {
                nearer_asymmetric(self.bits(), lhs.bits(), rhs.bits());
            }
            Order::Less
        } else {
            Order::Greater
        }
    }

    /// Returns whether both names are the same.
    pub fn is(&self, other: &XorName) -> (r: bool)
        ensures
            r == (self == other),
    {
        match self.compare(other) {
            Order::Equal => {
                proof {
                    assert(self.0 =~= other.0);
                }
                true
            },
            Order::Less => {
                proof {
                    lex_asymmetric(self.0@, other.0@);
                }
                false
            },
            Order::Greater => false,
        }
    }
}

impl View for XorName {
    type V = XorName;

    open spec fn view(&self) -> XorName {
        *self
    }
}

impl Checked for XorName {
    open spec fn inv(&self) -> bool {
        true
    }

    fn duplicate(&self) -> (r: Self) {
        *self
    }
}

impl Coded for XorName {
    open spec fn code(v: XorName) -> Seq<u8> {
        v.0@
    }

    open spec fn valid(v: XorName) -> bool {
        true
    }

    proof fn inv_valid(&self) {
    }

    proof fn code_unique(a: XorName, b: XorName) {
        assert(b.0@.subrange(0, 32) =~= b.0@);
        assert(a.0 =~= b.0);
    }

    fn write(&self, out: &mut Vec<u8>) {
        push_bytes(out, &self.0);
    }
}

impl Key for XorName {
    fn compare(&self, other: &Self) -> (o: Order) {
        compare_bytes(&self.0, &other.0)
    }
}

} // verus!
