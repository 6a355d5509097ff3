//! Prefixes of names. A section holds the nodes whose names begin with its prefix.

use crate::order::{lex_asymmetric, lex_less_at, lex_order, Checked, Coded, Key, Order};
use crate::ordered::OrderedSet;
use crate::xor_name::{
    common_len, common_len_props, common_len_unique, distance_order, nearer, nearer_asymmetric,
    XorName, XOR_NAME_BITS,
};
use vstd::prelude::*;

verus! {

/// A prefix of a name.
#[derive(Clone, Copy, Debug, PartialEq, Eq)]
pub struct Prefix {
    bit_count: usize,
    name: XorName,
}

/// `s` begins with `p`.
pub open spec fn begins(p: Seq<bool>, s: Seq<bool>) -> bool {
    &&& p.len() <= s.len()
    &&& forall|i: int| 0 <= i < p.len() ==> p[i] == s[i]
}

/// The length of the shorter of two sequences.
pub open spec fn shorter(p: Seq<bool>, q: Seq<bool>) -> nat {
    if p.len() <= q.len() {
        p.len()
    } else {
        q.len()
    }
}

/// Two sequences differ at `i` and at no other position that both have.
pub open spec fn differ_only_at(p: Seq<bool>, q: Seq<bool>, i: int) -> bool {
    &&& 0 <= i < shorter(p, q)
    &&& p[i] != q[i]
    &&& forall|j: int| 0 <= j < shorter(p, q) && j != i ==> p[j] == q[j]
}

/// Every name that begins with `p` begins with one of the prefixes too.
pub open spec fn covered(p: Seq<bool>, prefixes: Set<Prefix>) -> bool {
    forall|n: XorName|
        begins(p, #[trigger] n.bits()) ==> exists|q: Prefix|
            #[trigger] prefixes.contains(q) && q.covers(n)
}

impl View for Prefix {
    type V = Prefix;

    open spec fn view(&self) -> Prefix {
        *self
    }
}

impl Checked for Prefix {
    /// No more bits than a name has, and the unused bits of the name are zero.
    closed spec fn inv(&self) -> bool {
        &&& self.bit_count <= 256
        &&& forall|i: int| self.bit_count <= i < 256 ==> !self.name.bits()[i]
    }

    fn duplicate(&self) -> (r: Self) {
        *self
    }
}

impl Prefix {
    /// The bits of the prefix.
    pub closed spec fn bits(&self) -> Seq<bool> {
        Seq::new(self.bit_count as nat, |i: int| self.name.bits()[i])
    }

    /// The name begins with the prefix.
    pub open spec fn covers(&self, name: XorName) -> bool {
        begins(self.bits(), name.bits())
    }

    /// One of the prefixes begins with the other one.
    pub open spec fn compatible(&self, other: Prefix) -> bool {
        begins(self.bits(), other.bits()) || begins(other.bits(), self.bits())
    }

    /// The prefix is longer than `other` and begins with it.
    pub open spec fn extends(&self, other: Prefix) -> bool {
        begins(other.bits(), self.bits()) && self.bits().len() > other.bits().len()
    }

    /// Over their shared length the prefixes differ in exactly one bit.
    pub open spec fn adjoins(&self, other: Prefix) -> bool {
        exists|i: int| differ_only_at(self.bits(), other.bits(), i)
    }

    /// The prefix without its last bit; the empty prefix is left as it is.
    pub open spec fn parent_bits(&self) -> Seq<bool> {
        if self.bits().len() == 0 {
            self.bits()
        } else {
            self.bits().drop_last()
        }
    }

    /// The prefix with its last bit flipped; the empty prefix is left as it is.
    pub open spec fn sibling_bits(&self) -> Seq<bool> {
        if self.bits().len() == 0 {
            self.bits()
        } else {
            self.bits().drop_last().push(!self.bits().last())
        }
    }

    /// The prefix with the given bits.
    pub open spec fn of_bits(bits: Seq<bool>) -> Prefix {
        choose|p: Prefix| p.inv() && p.bits() == bits
    }

    /// The parent of the prefix.
    pub open spec fn parent(&self) -> Prefix {
        Prefix::of_bits(self.parent_bits())
    }

    /// The sibling of the prefix.
    pub open spec fn twin(&self) -> Prefix {
        Prefix::of_bits(self.sibling_bits())
    }

    /// The prefix with one more bit.
    pub open spec fn child(&self, bit: bool) -> Prefix {
        Prefix::of_bits(self.bits().push(bit))
    }

    /// A prefix has no more bits than a name.
    pub proof fn bits_bound(&self)
        requires
            self.inv(),
        ensures
            self.bits().len() <= 256,
    {
    }

    /// Two prefixes with the same bits are the same.
    pub proof fn bits_injective(a: Prefix, b: Prefix)
        requires
            a.inv(),
            b.inv(),
            a.bits() == b.bits(),
        ensures
            a == b,
    {
        assert(a.bit_count == a.bits().len());
        assert(b.bit_count == b.bits().len());
        assert forall|i: int| 0 <= i < 256 implies a.name.bits()[i] == b.name.bits()[i] by {
            if i < a.bit_count {
                assert(a.bits()[i] == a.name.bits()[i]);
                assert(b.bits()[i] == b.name.bits()[i]);
            } else {
                assert(!a.name.bits()[i] && !b.name.bits()[i]);
            }
        }
        assert(a.name.bits() =~= b.name.bits());
        XorName::bits_injective(a.name, b.name);
    }

    /// There is a prefix with the given bits.
    pub proof fn of_bits_exists(bits: Seq<bool>)
        requires
            bits.len() <= 256,
        ensures
            Prefix::of_bits(bits).inv(),
            Prefix::of_bits(bits).bits() == bits,
        decreases bits.len(),
    {
        if bits.len() == 0 {
            let name = Prefix::no_bits(0);
            let any = Prefix { bit_count: 0, name };
            assert(any.bits() =~= bits);
        } else {
            let rest = bits.drop_last();
            Prefix::of_bits_exists(rest);
            let p = Prefix::of_bits(rest);
            assert(p.bit_count == rest.len());
            let name = p.name.some_with_bit(rest.len() as int, bits.last());
            let q = Prefix { bit_count: bits.len() as usize, name };
            assert forall|i: int| 0 <= i < bits.len() implies q.bits()[i] == bits[i] by {
                if i < rest.len() {
                    assert(p.bits()[i] == rest[i]);
                }
            }
            assert(q.bits() =~= bits);
            assert(q.inv());
        }
    }

    /// There is a name whose bits from the given position on are zero.
    proof fn no_bits(from: int) -> (r: XorName)
        requires
            0 <= from <= 256,
        ensures
            forall|i: int| from <= i < 256 ==> !r.bits()[i],
        decreases 256 - from,
    {
        if from == 256 {
            XorName(vstd::array::spec_array_fill_for_copy_type(0u8))
        } else {
            let rest = Prefix::no_bits(from + 1);
            rest.some_with_bit(from, false)
        }
    }

    /// A prefix is the one with its bits.
    pub proof fn of_bits_unique(&self)
        requires
            self.inv(),
        ensures
            Prefix::of_bits(self.bits()) == *self,
    {
        Prefix::bits_injective(Prefix::of_bits(self.bits()), *self);
    }

    /// Returns the prefix of `name` with the given number of bits.
    pub fn new(bit_count: usize, name: XorName) -> (r: Prefix)
        requires
            bit_count <= XOR_NAME_BITS,
        ensures
            r.inv(),
            r.bits() == name.bits().take(bit_count as int),
            r.covers(name),
    {
        let mut rest = name;
        let mut i: usize = bit_count;
        while i < XOR_NAME_BITS
            invariant
                bit_count <= i <= 256,
                forall|j: int| 0 <= j < bit_count ==> rest.bits()[j] == name.bits()[j],
                forall|j: int| bit_count <= j < i ==> !rest.bits()[j],
            decreases 256 - i,
        {
            rest = rest.with_bit(i, false);
            i += 1;
        }
        let r = Prefix { bit_count, name: rest };
        assert(r.bits() =~= name.bits().take(bit_count as int));
        r
    }

    /// Returns the empty prefix.
    pub fn empty() -> (r: Prefix)
        ensures
            r.inv(),
            r.bits() == Seq::<bool>::empty(),
    {
        let r = Prefix::new(0, XorName([0u8; 32]));
        assert(r.bits() =~= Seq::<bool>::empty());
        r
    }

    /// Returns the prefix that is written in the digits `0` and `1`, or `None` where `s` holds
    /// another character or too many of them.
    pub fn from_str(s: &str) -> (r: Option<Prefix>)
        ensures
            match r {
                Some(p) => {
                    &&& p.inv()
                    &&& p.bits().len() == s@.len()
                    &&& forall|i: int|
                        0 <= i < s@.len() ==> #[trigger] s@[i] == (if p.bits()[i] {
                            '1'
                        } else {
                            '0'
                        })
                },
                None => s@.len() > 256 || exists|i: int|
                    0 <= i < s@.len() && #[trigger] s@[i] != '0' && s@[i] != '1',
            },
    {
        let len = s.unicode_len();
        if len > XOR_NAME_BITS {
            return None;
        }
        let mut p = Prefix::empty();
        let mut i: usize = 0;
        while i < len
            invariant
                len == s@.len(),
                len <= 256,
                i <= len,
                p.inv(),
                p.bits().len() == i,
                forall|j: int|
                    0 <= j < i ==> #[trigger] s@[j] == (if p.bits()[j] {
                        '1'
                    } else {
                        '0'
                    }),
            decreases len - i,
        {
            let c = s.get_char(i);
            if c == '0' {
                p = p.pushed(false);
            } else if c == '1' {
                p = p.pushed(true);
            } else {
                return None;
            }
            i += 1;
        }
        Some(p)
    }

    /// Returns the number of bits of the prefix.
    pub fn bit_count(&self) -> (r: usize)
        ensures
            r == self.bits().len(),
    {
        self.bit_count
    }

    /// Returns the bit at the given position.
    pub fn bit(&self, i: usize) -> (r: bool)
        requires
            self.inv(),
            i < self.bits().len(),
        ensures
            r == self.bits()[i as int],
    {
        self.name.bit(i)
    }

    /// Returns whether the prefix is empty.
    pub fn is_empty(&self) -> (r: bool)
        ensures
            r == (self.bits().len() == 0),
    {
        self.bit_count == 0
    }

    /// Returns the smallest name that begins with the prefix.
    pub fn lower_bound(&self) -> (r: XorName)
        requires
            self.inv(),
        ensures
            self.covers(r),
            r == self.lowest_name(),
    {
        proof {
            self.lemma_lowest_name(self.name);
        }
        self.name
    }

    /// The name that begins with the prefix and has only zeros after it.
    pub open spec fn lowest_name(&self) -> XorName {
        choose|n: XorName| self.is_lowest_name(n)
    }

    /// The name begins with the prefix and has only zeros after it.
    pub open spec fn is_lowest_name(&self, n: XorName) -> bool {
        &&& self.covers(n)
        &&& forall|i: int| self.bits().len() <= i < 256 ==> !#[trigger] n.bits()[i]
    }

    /// There is one lowest name.
    proof fn lemma_lowest_name(&self, n: XorName)
        requires
            self.inv(),
            n == self.name,
        ensures
            self.is_lowest_name(n),
            self.lowest_name() == n,
    {
        let m = self.lowest_name();
        assert(self.is_lowest_name(n));
        assert(self.is_lowest_name(m));
        assert forall|i: int| 0 <= i < 256 implies m.bits()[i] == n.bits()[i] by {
            if i < self.bits().len() {
                assert(self.bits()[i] == m.bits()[i]);
            }
        }
        assert(m.bits() =~= n.bits());
        XorName::bits_injective(m, n);
    }

    /// Returns the prefix with one more bit.
    pub fn pushed(self, bit: bool) -> (r: Prefix)
        requires
            self.inv(),
            self.bits().len() < 256,
        ensures
            r.inv(),
            r.bits() == self.bits().push(bit),
            r == self.child(bit),
    {
        let r = Prefix {
            bit_count: self.bit_count + 1,
            name: self.name.with_bit(self.bit_count, bit),
        };
        proof {
            assert(r.bits() =~= self.bits().push(bit));
            r.of_bits_unique();
        }
        r
    }

    /// Returns the prefix without its last bit; the empty prefix is left as it is.
    pub fn popped(self) -> (r: Prefix)
        requires
            self.inv(),
        ensures
            r.inv(),
            r.bits() == self.parent_bits(),
            r == self.parent(),
    {
        if self.bit_count == 0 {
            proof {
                self.of_bits_unique();
            }
            return self;
        }
        let r = Prefix {
            bit_count: self.bit_count - 1,
            name: self.name.with_bit(self.bit_count - 1, false),
        };
        proof {
            assert(r.bits() =~= self.parent_bits());
            r.of_bits_unique();
        }
        r
    }

    /// Returns the prefix with its last bit flipped; the empty prefix is left as it is.
    pub fn sibling(self) -> (r: Prefix)
        requires
            self.inv(),
        ensures
            r.inv(),
            r.bits() == self.sibling_bits(),
            r == self.twin(),
    {
        if self.bit_count == 0 {
            proof {
                self.of_bits_unique();
            }
            return self;
        }
        let last = self.bit_count - 1;
        let r = Prefix {
            bit_count: self.bit_count,
            name: self.name.with_bit(last, !self.name.bit(last)),
        };
        proof {
            assert(r.bits() =~= self.sibling_bits());
            r.of_bits_unique();
        }
        r
    }

    /// Returns whether the name begins with the prefix.
    pub fn matches(&self, name: &XorName) -> (r: bool)
        requires
            self.inv(),
        ensures
            r == self.covers(*name),
    {
        let c = self.name.common_prefix(name);
        proof {
            common_len_props(self.name.bits(), name.bits());
            if c < self.bit_count {
                assert(self.bits()[c as int] != name.bits()[c as int]);
            }
        }
        c >= self.bit_count
    }

    /// Returns the number of leading bits that both prefixes have and share.
    fn shared(&self, other: &Prefix) -> (r: usize)
        requires
            self.inv(),
            other.inv(),
        ensures
            r == common_len(self.bits(), other.bits()),
            r <= self.bits().len(),
            r <= other.bits().len(),
    {
        let c = self.name.common_prefix(&other.name);
        let m = if self.bit_count <= other.bit_count {
            self.bit_count
        } else {
            other.bit_count
        };
        let r = if c <= m {
            c
        } else {
            m
        };
        proof {
            common_len_props(self.name.bits(), other.name.bits());
            common_len_unique(self.bits(), other.bits(), r as nat);
        }
        r
    }

    /// Returns whether one of the prefixes begins with the other one.
    pub fn is_compatible(&self, other: &Prefix) -> (r: bool)
        requires
            self.inv(),
            other.inv(),
        ensures
            r == self.compatible(*other),
    {
        let c = self.shared(other);
        proof {
            common_len_props(self.bits(), other.bits());
        }
        c == self.bit_count || c == other.bit_count
    }

    /// Returns whether the prefix is longer than `other` and begins with it.
    pub fn is_extension_of(&self, other: &Prefix) -> (r: bool)
        requires
            self.inv(),
            other.inv(),
        ensures
            r == self.extends(*other),
    {
        let c = self.shared(other);
        proof {
            common_len_props(self.bits(), other.bits());
        }
        c == other.bit_count && self.bit_count > other.bit_count
    }

    /// Returns whether over their shared length the prefixes differ in exactly one bit.
    pub fn is_neighbour(&self, other: &Prefix) -> (r: bool)
        requires
            self.inv(),
            other.inv(),
        ensures
            r == self.adjoins(*other),
    {
        let m = if self.bit_count <= other.bit_count {
            self.bit_count
        } else {
            other.bit_count
        };
        let d = self.shared(other);
        proof {
            common_len_props(self.bits(), other.bits());
        }
        if d == m {
            return false;
        }
        let ghost a = self.bits();
        let ghost b = other.bits();
        let mut i: usize = d + 1;
        while i < m
            invariant
                self.inv(),
                other.inv(),
                a == self.bits(),
                b == other.bits(),
                m == shorter(a, b),
                d < i <= m,
                a[d as int] != b[d as int],
                forall|j: int| 0 <= j < i && j != d ==> a[j] == b[j],
            decreases m - i,
        {
            if self.bit(i) != other.bit(i) {
                proof {
                    if self.adjoins(*other) {
                        let k = choose|k: int| differ_only_at(a, b, k);
                        assert(a[d as int] != b[d as int]);
                        assert(k == d);
                    }
                }
                return false;
            }
            i += 1;
        }
        assert(differ_only_at(a, b, d as int));
        true
    }

    /// Returns the number of leading bits of the prefix that `name` shares.
    pub fn common_prefix(&self, name: &XorName) -> (r: usize)
        requires
            self.inv(),
        ensures
            r == common_len(self.bits(), name.bits()),
            r <= 256,
    {
        let c = self.name.common_prefix(name);
        let r = if c <= self.bit_count {
            c
        } else {
            self.bit_count
        };
        proof {
            common_len_props(self.name.bits(), name.bits());
            common_len_unique(self.bits(), name.bits(), r as nat);
        }
        r
    }

    /// Compares the distances of two prefixes from a name. Of two compatible prefixes the shorter
    /// one is taken for the nearer one.
    pub fn order_distance(&self, other: &Prefix, target: &XorName) -> (o: Order)
        requires
            self.inv(),
            other.inv(),
        ensures
            o == distance_order(target.bits(), self.bits(), other.bits()),
            o == Order::Equal <==> self == other,
    {
        let c = self.shared(other);
        proof {
            common_len_props(self.bits(), other.bits());
        }
        if c == self.bit_count && c == other.bit_count {
            proof {
                assert(self.bits() =~= other.bits());
                Prefix::bits_injective(*self, *other);
            }
            Order::Equal
        } else if c < other.bit_count && (c == self.bit_count || self.bit(c) == target.bit(c)) {
            proof {
                nearer_asymmetric(target.bits(), self.bits(), other.bits());
            }
            Order::Less
        } else {
            Order::Greater
        }
    }

    /// Returns whether both prefixes are the same.
    pub fn is(&self, other: &Prefix) -> (r: bool)
        requires
            self.inv(),
            other.inv(),
        ensures
            r == (self == other),
    {
        let c = self.shared(other);
        let r = c == self.bit_count && c == other.bit_count;
        proof {
            common_len_props(self.bits(), other.bits());
            if r {
                assert(self.bits() =~= other.bits());
                Prefix::bits_injective(*self, *other);
            } else if self == other {
                common_len_unique(self.bits(), self.bits(), self.bits().len());
            }
        }
        r
    }

    /// Returns whether every name that begins with this prefix begins with one of `prefixes` too.
    pub fn is_covered_by(&self, prefixes: &OrderedSet<Prefix>) -> (r: bool)
        requires
            self.inv(),
            prefixes.inv(),
        ensures
            r == covered(self.bits(), prefixes@),
        decreases 256 - self.bits().len(),
    {
        let mut longer: bool = false;
        let mut i: usize = 0;
        proof {
            prefixes.lemma_inv();
            self.bits_bound();
        }
        while i < prefixes.len()
            invariant
                self.inv(),
                prefixes.inv(),
                i <= prefixes.seq().len(),
                forall|j: int|
                    0 <= j < i ==> !begins((#[trigger] prefixes.seq()[j]).bits(), self.bits()),
                longer == exists|j: int|
                    0 <= j < i && (#[trigger] prefixes.seq()[j]).extends(*self),
            decreases prefixes.seq().len() - i,
        {
            let q = prefixes.at(i);
            if q.is_compatible(self) && q.bit_count() <= self.bit_count() {
                proof {
                    assert(begins(q.bits(), self.bits())) by {
                        if begins(self.bits(), q.bits()) {
                            assert(q.bits() =~= self.bits());
                        }
                    }
                    assert forall|n: XorName| begins(self.bits(), #[trigger] n.bits()) implies exists|
                        q: Prefix,
                    |
                        #[trigger] prefixes@.contains(q) && q.covers(n) by {
                        assert(prefixes@.contains(*q) && q.covers(n));
                    }
                }
                return true;
            }
            assert(!begins(q.bits(), self.bits()));
            if q.is_extension_of(self) {
                longer = true;
                assert(prefixes.seq()[i as int].extends(*self));
            }
            i += 1;
        }
        if !longer {
            proof {
                let n = self.name;
                assert(begins(self.bits(), n.bits()));
                if covered(self.bits(), prefixes@) {
                    let q = choose|q: Prefix| #[trigger] prefixes@.contains(q) && q.covers(n);
                    assert(prefixes.seq().contains(q));
                    let j = choose|j: int| 0 <= j < prefixes.seq().len() && prefixes.seq()[j] == q;
                    assert(!begins(prefixes.seq()[j].bits(), self.bits()));
                    assert(!prefixes.seq()[j].extends(*self));
                    if q.bits().len() <= self.bits().len() {
                        assert(begins(q.bits(), self.bits()));
                    } else {
                        assert(begins(self.bits(), q.bits()));
                    }
                }
            }
            return false;
        }
        proof {
            let j = choose|j: int|
                0 <= j < prefixes.seq().len() && (#[trigger] prefixes.seq()[j]).extends(*self);
            let q = prefixes.at_valid(j);
            q.bits_bound();
            assert(self.bits().len() < 256);
            covered_by_children(self.bits(), prefixes@);
        }
        self.pushed(false).is_covered_by(prefixes) && self.pushed(true).is_covered_by(prefixes)
    }
}

/// A prefix is covered if and only if both its children are.
proof fn covered_by_children(p: Seq<bool>, prefixes: Set<Prefix>)
    requires
        p.len() < 256,
    ensures
        covered(p, prefixes) == (covered(p.push(false), prefixes) && covered(p.push(true), prefixes)),
{
    assert forall|n: XorName| #[trigger] begins(p, n.bits()) == (begins(p.push(false), n.bits())
        || begins(p.push(true), n.bits())) by {
        let s = n.bits();
        let k = p.len() as int;
        if begins(p, s) {
            let b = s[k];
            assert(begins(p.push(b), s));
        }
        if begins(p.push(false), s) {
            assert forall|i: int| 0 <= i < p.len() implies p[i] == s[i] by {
                assert(p.push(false)[i] == s[i]);
            }
        }
        if begins(p.push(true), s) {
            assert forall|i: int| 0 <= i < p.len() implies p[i] == s[i] by {
                assert(p.push(true)[i] == s[i]);
            }
        }
    }
    if covered(p.push(false), prefixes) && covered(p.push(true), prefixes) {
        assert forall|n: XorName| begins(p, #[trigger] n.bits()) implies exists|q: Prefix|
            #[trigger] prefixes.contains(q) && q.covers(n) by {
            assert(begins(p.push(false), n.bits()) || begins(p.push(true), n.bits()));
        }
    }
    if covered(p, prefixes) {
        assert forall|n: XorName| begins(p.push(false), #[trigger] n.bits()) implies exists|q: Prefix|
            #[trigger] prefixes.contains(q) && q.covers(n) by {
            assert(begins(p, n.bits()));
        }
        assert forall|n: XorName| begins(p.push(true), #[trigger] n.bits()) implies exists|q: Prefix|
            #[trigger] prefixes.contains(q) && q.covers(n) by {
            assert(begins(p, n.bits()));
        }
    }
}

impl Coded for Prefix {
    /// One byte for each bit, and a zero to end with: a prefix comes before its extensions.
    open spec fn code(v: Prefix) -> Seq<u8> {
        Seq::new(
            v.bits().len() + 1,
            |i: int|
                if i == v.bits().len() {
                    0u8
                } else if v.bits()[i] {
                    2u8
                } else {
                    1u8
                },
        )
    }

    open spec fn valid(v: Prefix) -> bool {
        v.inv()
    }

    proof fn inv_valid(&self) {
    }

    proof fn code_unique(a: Prefix, b: Prefix) {
        let ca = Self::code(a);
        let cb = Self::code(b);
        let n = a.bits().len() as int;
        assert forall|i: int| 0 <= i <= n implies ca[i] == cb[i] by {
            assert(cb.subrange(0, ca.len() as int)[i] == cb[i]);
        }
        assert(ca[n] == 0 && cb[n] == 0);
        assert(b.bits().len() == n);
        assert forall|i: int| 0 <= i < n implies a.bits()[i] == b.bits()[i] by {
            assert(ca[i] == cb[i]);
        }
        assert(a.bits() =~= b.bits());
        Prefix::bits_injective(a, b);
    }

    fn write(&self, out: &mut Vec<u8>) {
        let ghost start = out@;
        let ghost code = Self::code(*self);
        let mut i: usize = 0;
        while i < self.bit_count
            invariant
                self.inv(),
                code == Self::code(*self),
                i <= self.bit_count,
                self.bit_count == self.bits().len(),
                out@ == start + code.take(i as int),
            decreases self.bit_count - i,
        {
            out.push(
                if self.bit(i) {
                    2u8
                } else {
                    1u8
                },
            );
            assert(code.take(i as int).push(code[i as int]) =~= code.take(i + 1));
            i += 1;
        }
        out.push(0u8);
        assert(code.take(i as int).push(0u8) =~= code);
    }
}

impl Key for Prefix {
    fn compare(&self, other: &Self) -> (o: Order) {
        let c = self.shared(other);
        let ghost a = Self::code(*self);
        let ghost b = Self::code(*other);
        proof {
            common_len_props(self.bits(), other.bits());
            assert(forall|i: int| 0 <= i < c ==> a[i] == b[i]);
        }
        if c == self.bit_count && c == other.bit_count {
            proof {
                assert(a =~= b);
                if lex_order(a, b) == Order::Less {
                    lex_asymmetric(a, b);
                }
            }
            Order::Equal
        } else if c == self.bit_count || (c < other.bit_count && other.bit(c)) {
            assert(lex_less_at(a, b, c as int));
            Order::Less
        } else {
            proof {
                assert(lex_less_at(b, a, c as int));
                lex_asymmetric(b, a);
            }
            Order::Greater
        }
    }
}

} // verus!
