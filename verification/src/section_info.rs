//! Descriptions of sections, and what proves them.

use crate::codes::{peel, set_valid, u64_code};
use crate::id::PublicId;
use crate::order::{prefix_of_concat, Checked, Coded};
use crate::ordered::OrderedSet;
use crate::prefix::Prefix;
use crate::proof_set::{signatures_valid, Proof, ProofMap, ProofSet};
use crate::sha3::{digest, digest_of, Digest256};
use crate::xor_name::XorName;
use vstd::prelude::*;

verus! {

/// A set of votes is a quorum if it holds more than this fraction of the voters: the numerator.
pub const QUORUM_NUMERATOR: usize = 1;

/// A set of votes is a quorum if it holds more than this fraction of the voters: the denominator.
pub const QUORUM_DENOMINATOR: usize = 2;

/// The first byte of a signed section description.
pub const SECTION_INFO_TAG: u8 = 8;

/// A section at one point of its history.
#[derive(Debug, PartialEq, Eq)]
pub struct SectionInfo {
    members: OrderedSet<PublicId>,
    version: u64,
    prefix: Prefix,
    prev_hash: OrderedSet<Digest256>,
    hash: Digest256,
}

/// What a section description says.
#[verifier::ext_equal]
pub struct SectionModel {
    /// The members of the section.
    pub members: Set<PublicId>,
    /// The number of steps of the section's history so far.
    pub version: u64,
    /// The prefix of the section.
    pub prefix: Prefix,
    /// The digests of the descriptions that this one follows.
    pub prev_hash: Set<Digest256>,
    /// The digest of the description.
    pub hash: Digest256,
}

impl SectionModel {
    /// The bytes that a section description is written down as.
    pub open spec fn bytes(self) -> Seq<u8> {
        OrderedSet::<PublicId>::code(self.members) + (u64_code(self.version) + (Prefix::code(
            self.prefix,
        ) + OrderedSet::<Digest256>::code(self.prev_hash)))
    }

    /// The prefix and the sets are valid, and the digest is the one of the other fields.
    pub open spec fn valid(self) -> bool {
        &&& set_valid::<PublicId>(self.members)
        &&& self.prefix.inv()
        &&& set_valid::<Digest256>(self.prev_hash)
        &&& self.hash == digest_of(self.bytes())
    }

    /// The names of the members.
    pub open spec fn names(self) -> Set<XorName> {
        self.members.map(|id: PublicId| id.xor_name())
    }

    /// The section directly follows `other`.
    pub open spec fn follows(self, other: SectionModel) -> bool {
        self.prev_hash.contains(other.hash)
    }

    /// More than half of the members have signed.
    pub open spec fn quorum(self, proofs: ProofMap) -> bool {
        self.members.intersect(proofs.dom()).len() * QUORUM_DENOMINATOR > self.members.len()
            * QUORUM_NUMERATOR
    }

    /// The message that the members of a section sign to confirm a section description.
    pub open spec fn signed_message(self) -> Seq<u8> {
        seq![SECTION_INFO_TAG] + self.bytes()
    }

    /// `other` directly follows this section, and a quorum of it has validly signed `other`.
    pub open spec fn confirms(self, other: SectionModel, proofs: ProofMap) -> bool {
        &&& other.follows(self)
        &&& self.quorum(proofs)
        &&& signatures_valid(proofs, other.signed_message())
    }

    /// The section with the given fields, and the digest that they have.
    pub open spec fn make(
        members: Set<PublicId>,
        version: u64,
        prefix: Prefix,
        prev_hash: Set<Digest256>,
    ) -> SectionModel {
        SectionModel {
            members,
            version,
            prefix,
            prev_hash,
            hash: digest_of(
                OrderedSet::<PublicId>::code(members) + (u64_code(version) + (Prefix::code(prefix)
                    + OrderedSet::<Digest256>::code(prev_hash))),
            ),
        }
    }

    /// The section with the given members and prefix that directly follows `prev`.
    pub open spec fn next(
        members: Set<PublicId>,
        prefix: Prefix,
        prev: Option<SectionModel>,
    ) -> SectionModel {
        match prev {
            Some(p) => SectionModel::make(
                members,
                (p.version + 1) as u64,
                prefix,
                set![p.hash],
            ),
            None => SectionModel::make(members, 0, prefix, Set::empty()),
        }
    }

    /// What the section and its sibling `other` merge to.
    pub open spec fn merged(self, other: SectionModel) -> SectionModel {
        SectionModel::make(
            self.members.union(other.members),
            ((if self.version >= other.version {
                self.version
            } else {
                other.version
            }) + 1) as u64,
            self.prefix.parent(),
            set![self.hash, other.hash],
        )
    }

    /// A valid description is determined by its fields other than the digest.
    pub proof fn determined(a: SectionModel, b: SectionModel)
        requires
            a.valid(),
            b.valid(),
            a.members == b.members,
            a.version == b.version,
            a.prefix == b.prefix,
            a.prev_hash == b.prev_hash,
        ensures
            a == b,
    {
    }
}

impl View for SectionInfo {
    type V = SectionModel;

    closed spec fn view(&self) -> SectionModel {
        SectionModel {
            members: self.members@,
            version: self.version,
            prefix: self.prefix,
            prev_hash: self.prev_hash@,
            hash: self.hash,
        }
    }
}

impl Checked for SectionInfo {
    closed spec fn inv(&self) -> bool {
        &&& self.members.inv()
        &&& self.prefix.inv()
        &&& self.prev_hash.inv()
        &&& self.hash == digest_of(self@.bytes())
    }

    fn duplicate(&self) -> (r: Self) {
        SectionInfo {
            members: self.members.duplicate(),
            version: self.version,
            prefix: self.prefix,
            prev_hash: self.prev_hash.duplicate(),
            hash: self.hash,
        }
    }
}

impl Clone for SectionInfo {
    fn clone(&self) -> (r: Self)
        ensures
            r@ == self@,
            self.inv() ==> r.inv(),
    {
        self.duplicate()
    }
}

impl Coded for SectionInfo {
    open spec fn code(v: SectionModel) -> Seq<u8> {
        v.bytes()
    }

    open spec fn valid(v: SectionModel) -> bool {
        v.valid()
    }

    proof fn inv_valid(&self) {
        self.members.inv_valid();
        self.prev_hash.inv_valid();
        assert(set_valid::<PublicId>(self@.members));
        assert(set_valid::<Digest256>(self@.prev_hash));
        assert(self@.valid());
        assert(<SectionInfo as Coded>::valid(self@));
    }

    proof fn code_unique(a: SectionModel, b: SectionModel) {
        let (ha, hb) = (
            OrderedSet::<Digest256>::code(a.prev_hash),
            OrderedSet::<Digest256>::code(b.prev_hash),
        );
        let (pa, pb) = (Prefix::code(a.prefix) + ha, Prefix::code(b.prefix) + hb);
        let (va, vb) = (u64_code(a.version) + pa, u64_code(b.version) + pb);
        peel::<OrderedSet<PublicId>>(a.members, va, b.members, vb);
        peel::<u64>(a.version, pa, b.version, pb);
        peel::<Prefix>(a.prefix, ha, b.prefix, hb);
        OrderedSet::<Digest256>::code_unique(a.prev_hash, b.prev_hash);
        SectionModel::determined(a, b);
    }

    fn write(&self, out: &mut Vec<u8>) {
        let ghost start = out@;
        self.members.write(out);
        self.version.write(out);
        self.prefix.write(out);
        self.prev_hash.write(out);
        assert(out@ =~= start + self@.bytes());
    }
}

impl SectionInfo {
    /// Puts a description together and computes its digest.
    fn with_fields(
        members: OrderedSet<PublicId>,
        version: u64,
        prefix: Prefix,
        prev_hash: OrderedSet<Digest256>,
    ) -> (r: SectionInfo)
        requires
            members.inv(),
            prefix.inv(),
            prev_hash.inv(),
        ensures
            r.inv(),
            r@ == SectionModel::make(members@, version, prefix, prev_hash@),
    {
        let mut bytes: Vec<u8> = Vec::new();
        members.write(&mut bytes);
        version.write(&mut bytes);
        prefix.write(&mut bytes);
        prev_hash.write(&mut bytes);
        let hash = digest(bytes.as_slice());
        let r = SectionInfo { members, version, prefix, prev_hash, hash };
        assert(bytes@ =~= r@.bytes());
        r
    }

    /// Returns the section with the given members and prefix that follows `prev`.
    pub fn new(members: OrderedSet<PublicId>, prefix: Prefix, prev: Option<&SectionInfo>) -> (r:
        SectionInfo)
        requires
            members.inv(),
            prefix.inv(),
            prev matches Some(p) ==> p.inv() && p@.version < u64::MAX,
        ensures
            r.inv(),
            r@ == SectionModel::next(
                members@,
                prefix,
                match prev {
                    Some(p) => Some(p@),
                    None => None,
                },
            ),
    {
        let mut prev_hash: OrderedSet<Digest256> = OrderedSet::new();
        let mut version: u64 = 0;
        if let Some(p) = prev {
            version = p.version + 1;
            let _ = prev_hash.insert(p.hash);
            assert(prev_hash@ =~= set![p@.hash]);
        }
        SectionInfo::with_fields(members, version, prefix, prev_hash)
    }

    /// Returns the section that two sibling sections merge to.
    pub fn merge(&self, other: &SectionInfo) -> (r: SectionInfo)
        requires
            self.inv(),
            other.inv(),
            self@.version < u64::MAX,
            other@.version < u64::MAX,
        ensures
            r.inv(),
            r@ == self@.merged(other@),
    {
        let mut members = self.members.duplicate();
        let mut i: usize = 0;
        let ghost s = other.members.seq();
        proof {
            other.members.lemma_inv();
            assert(members@ =~= self@.members.union(s.take(0).to_set()));
        }
        while i < other.members.len()
            invariant
                other.members.inv(),
                s == other.members.seq(),
                members.inv(),
                i <= s.len(),
                members@ == self@.members.union(s.take(i as int).to_set()),
            decreases s.len() - i,
        {
            let id = other.members.at(i);
            let _ = members.insert(*id);
            proof {
                let t = s.take(i as int);
                let u = s.take(i + 1);
                assert(u =~= t.push(*id));
                assert forall|x: PublicId| u.contains(x) == (t.contains(x) || x == *id) by {
                    if t.contains(x) {
                        let j = choose|j: int| 0 <= j < t.len() && t[j] == x;
                        assert(u[j] == x);
                    }
                    assert(u[i as int] == *id);
                    if u.contains(x) && x != *id {
                        let j = choose|j: int| 0 <= j < u.len() && u[j] == x;
                        assert(t[j] == x);
                    }
                }
                assert(self@.members.union(u.to_set()) =~= self@.members.union(t.to_set()).insert(
                    *id,
                ));
            }
            i += 1;
        }
        assert(s.take(i as int) =~= s);
        let version = if self.version >= other.version {
            self.version + 1
        } else {
            other.version + 1
        };
        let mut prev_hash: OrderedSet<Digest256> = OrderedSet::new();
        let _ = prev_hash.insert(self.hash);
        let _ = prev_hash.insert(other.hash);
        assert(prev_hash@ =~= set![self@.hash, other@.hash]);
        SectionInfo::with_fields(members, version, self.prefix.popped(), prev_hash)
    }

    /// Returns the members of the section.
    pub fn members(&self) -> (r: &OrderedSet<PublicId>)
        requires
            self.inv(),
        ensures
            r@ == self@.members,
            r.inv(),
    {
        &self.members
    }

    /// Returns the names of the members.
    pub fn member_names(&self) -> (r: OrderedSet<XorName>)
        requires
            self.inv(),
        ensures
            r.inv(),
            r@ == self@.names(),
    {
        let mut names: OrderedSet<XorName> = OrderedSet::new();
        let ghost s = self.members.seq();
        let ghost f = |id: PublicId| id.xor_name();
        let mut i: usize = 0;
        proof {
            self.members.lemma_inv();
            assert(names@ =~= s.take(0).to_set().map(f));
        }
        while i < self.members.len()
            invariant
                self.members.inv(),
                s == self.members.seq(),
                f == (|id: PublicId| id.xor_name()),
                names.inv(),
                i <= s.len(),
                names@ == s.take(i as int).to_set().map(f),
            decreases s.len() - i,
        {
            let id = self.members.at(i);
            let _ = names.insert(*id.name());
            proof {
                let t = s.take(i as int);
                let u = s.take(i + 1);
                assert(u =~= t.push(*id));
                assert forall|n: XorName| u.to_set().map(f).contains(n) == (t.to_set().map(
                    f,
                ).contains(n) || n == id.xor_name()) by {
                    if t.to_set().map(f).contains(n) {
                        let x = choose|x: PublicId| t.to_set().contains(x) && f(x) == n;
                        let j = choose|j: int| 0 <= j < t.len() && t[j] == x;
                        assert(u[j] == x);
                        assert(u.to_set().contains(x));
                        assert(f(x) == n);
                    }
                    if n == id.xor_name() {
                        assert(u[i as int] == *id);
                        assert(u.to_set().contains(*id));
                        assert(f(*id) == n);
                    }
                    if u.to_set().map(f).contains(n) {
                        let x = choose|x: PublicId| u.to_set().contains(x) && f(x) == n;
                        let j = choose|j: int| 0 <= j < u.len() && u[j] == x;
                        if j < i {
                            assert(t[j] == x);
                            assert(t.to_set().contains(x));
                            assert(f(x) == n);
                        }
                    }
                }
                assert(u.to_set().map(f) =~= t.to_set().map(f).insert(id.xor_name()));
            }
            i += 1;
        }
        assert(s.take(i as int) =~= s);
        names
    }

    /// Returns the version of the section.
    pub fn version(&self) -> (r: u64)
        ensures
            r == self@.version,
    {
        self.version
    }

    /// Returns the prefix of the section.
    pub fn prefix(&self) -> (r: &Prefix)
        ensures
            *r == self@.prefix,
            self.inv() ==> r.inv(),
    {
        &self.prefix
    }

    /// Returns the digest of the description.
    pub fn hash(&self) -> (r: &Digest256)
        ensures
            *r == self@.hash,
    {
        &self.hash
    }

    /// Returns whether this section directly follows `other`.
    pub fn is_successor_of(&self, other: &SectionInfo) -> (r: bool)
        requires
            self.inv(),
        ensures
            r == self@.follows(other@),
    {
        self.prev_hash.contains(&other.hash)
    }

    /// Returns whether more than half of the members have signed.
    pub fn is_quorum(&self, proofs: &ProofSet) -> (r: bool)
        requires
            self.inv(),
            proofs.inv(),
        ensures
            r == self@.quorum(proofs@),
    {
        let votes = proofs.count_in(&self.members);
        votes as u128 * QUORUM_DENOMINATOR as u128 > self.members.len() as u128
            * QUORUM_NUMERATOR as u128
    }

    /// Returns whether `other` directly follows this section and a quorum of it has validly signed
    /// `other`.
    pub fn proves_successor(&self, other: &SectionInfo, proofs: &ProofSet) -> (r: bool)
        requires
            self.inv(),
            other.inv(),
            proofs.inv(),
        ensures
            r == self@.confirms(other@, proofs@),
    {
        if !other.is_successor_of(self) || !self.is_quorum(proofs) {
            return false;
        }
        let mut message: Vec<u8> = Vec::new();
        message.push(SECTION_INFO_TAG);
        other.write(&mut message);
        assert(message@ =~= other@.signed_message());
        proofs.validate_signatures(&message)
    }

    /// Returns whether both descriptions are the same.
    pub fn same(&self, other: &SectionInfo) -> (r: bool)
        requires
            self.inv(),
            other.inv(),
        ensures
            r == (self@ == other@),
    {
        let r = self.version == other.version && self.prefix.is(&other.prefix)
            && self.members.same(&other.members) && self.prev_hash.same(&other.prev_hash);
        proof {
            self.inv_valid();
            other.inv_valid();
            if r {
                SectionModel::determined(self@, other@);
            }
        }
        r
    }
}

impl Default for SectionInfo {
    /// A first section without members and with the empty prefix.
    fn default() -> (r: Self)
        ensures
            r.inv(),
            r@ == SectionModel::next(Set::empty(), Prefix::of_bits(Seq::empty()), None),
    {
        let prefix = Prefix::empty();
        proof {
            prefix.of_bits_unique();
        }
        SectionInfo::new(OrderedSet::new(), prefix, None)
    }
}

/// A neighbouring section with signatures by our own section.
#[derive(Debug, PartialEq, Eq)]
pub struct NeighbourSigs {
    sec_info: SectionInfo,
    proofs: ProofSet,
    our_version: u64,
}

/// What is known of a neighbouring section.
#[verifier::ext_equal]
pub struct NeighbourModel {
    /// The section.
    pub sec_info: SectionModel,
    /// The signatures by our own section.
    pub proofs: ProofMap,
    /// The version of our own section that the signatures are a quorum of.
    pub our_version: u64,
}

impl View for NeighbourSigs {
    type V = NeighbourModel;

    closed spec fn view(&self) -> NeighbourModel {
        NeighbourModel {
            sec_info: self.sec_info@,
            proofs: self.proofs@,
            our_version: self.our_version,
        }
    }
}

impl Checked for NeighbourSigs {
    closed spec fn inv(&self) -> bool {
        &&& self.sec_info.inv()
        &&& self.proofs.inv()
    }

    fn duplicate(&self) -> (r: Self) {
        NeighbourSigs {
            sec_info: self.sec_info.duplicate(),
            proofs: self.proofs.duplicate(),
            our_version: self.our_version,
        }
    }
}

impl Clone for NeighbourSigs {
    fn clone(&self) -> (r: Self)
        ensures
            r@ == self@,
            self.inv() ==> r.inv(),
    {
        self.duplicate()
    }
}

impl NeighbourSigs {
    /// Returns a neighbouring section with signatures by the given version of our own section.
    pub fn with_version(sec_info: SectionInfo, proofs: ProofSet, our_version: u64) -> (r:
        NeighbourSigs)
        requires
            sec_info.inv(),
            proofs.inv(),
        ensures
            r.inv(),
            r@ == (NeighbourModel {
                sec_info: sec_info@,
                proofs: proofs@,
                our_version,
            }),
    {
        NeighbourSigs { sec_info, proofs, our_version }
    }

    /// The section is a valid one.
    pub proof fn lemma_inv(&self)
        requires
            self.inv(),
        ensures
            self@.sec_info.valid(),
    {
        self.sec_info.inv_valid();
    }

    /// Returns the section.
    pub fn sec_info(&self) -> (r: &SectionInfo)
        ensures
            r@ == self@.sec_info,
            self.inv() ==> r.inv(),
    {
        &self.sec_info
    }

    /// Returns the signatures.
    pub fn proofs(&self) -> (r: &ProofSet)
        ensures
            r@ == self@.proofs,
            self.inv() ==> r.inv(),
    {
        &self.proofs
    }

    /// Returns the version of our own section that the signatures are a quorum of.
    pub fn our_version(&self) -> (r: u64)
        ensures
            r == self@.our_version,
    {
        self.our_version
    }

    /// Adds a signature. Returns whether there was none by the same identity.
    pub fn add_proof(&mut self, proof: Proof) -> (r: bool)
        requires
            old(self).inv(),
        ensures
            final(self).inv(),
            final(self)@ == (NeighbourModel {
                proofs: old(self)@.proofs.insert(proof.pub_id, proof.sig),
                ..old(self)@
            }),
            r == !old(self)@.proofs.dom().contains(proof.pub_id),
    {
        self.proofs.add_proof(proof)
    }

    /// Moves on to the version of `our_info` if it is newer and the signatures are a quorum of it.
    /// Returns whether it did.
    pub fn update_version(&mut self, our_info: &SectionInfo) -> (r: bool)
        requires
            old(self).inv(),
            our_info.inv(),
        ensures
            final(self).inv(),
            r == old(self)@.can_update(our_info@),
            final(self)@ == (if r {
                NeighbourModel { our_version: our_info@.version, ..old(self)@ }
            } else {
                old(self)@
            }),
    {
        if our_info.version() > self.our_version && our_info.is_quorum(&self.proofs) {
            self.our_version = our_info.version();
            true
        } else {
            false
        }
    }
}

impl NeighbourModel {
    /// Our section info is newer than the one noted, and the signatures are a quorum of it.
    pub open spec fn can_update(self, our_info: SectionModel) -> bool {
        our_info.version > self.our_version && our_info.quorum(self.proofs)
    }
}

/// A section that vouches for another one: as its successor, or with its signatures.
#[derive(Debug, PartialEq, Eq)]
pub struct ProvingSection {
    /// The section that vouches.
    pub sec_info: SectionInfo,
    /// Its signatures, unless it vouches as the successor.
    pub sigs: Option<ProofSet>,
}

/// What a proving section says.
#[verifier::ext_equal]
pub struct ProvingModel {
    /// The section that vouches.
    pub sec_info: SectionModel,
    /// Its signatures, unless it vouches as the successor.
    pub sigs: Option<ProofMap>,
}

impl View for ProvingSection {
    type V = ProvingModel;

    open spec fn view(&self) -> ProvingModel {
        ProvingModel {
            sec_info: self.sec_info@,
            sigs: match self.sigs {
                Some(p) => Some(p@),
                None => None,
            },
        }
    }
}

impl Checked for ProvingSection {
    open spec fn inv(&self) -> bool {
        &&& self.sec_info.inv()
        &&& self.sigs matches Some(p) ==> p.inv()
    }

    fn duplicate(&self) -> (r: Self) {
        ProvingSection {
            sec_info: self.sec_info.duplicate(),
            sigs: match &self.sigs {
                Some(p) => Some(p.duplicate()),
                None => None,
            },
        }
    }
}

impl Clone for ProvingSection {
    fn clone(&self) -> (r: Self)
        ensures
            r@ == self@,
            self.inv() ==> r.inv(),
    {
        self.duplicate()
    }
}

impl ProvingModel {
    /// The code of the signatures.
    pub open spec fn sigs_code(self) -> Seq<u8> {
        match self.sigs {
            Some(p) => seq![1u8] + ProofSet::code(p),
            None => seq![0u8],
        }
    }
}

impl Coded for ProvingSection {
    open spec fn code(v: ProvingModel) -> Seq<u8> {
        v.sec_info.bytes() + v.sigs_code()
    }

    open spec fn valid(v: ProvingModel) -> bool {
        &&& v.sec_info.valid()
        &&& v.sigs matches Some(p) ==> ProofSet::valid(p)
    }

    proof fn inv_valid(&self) {
        self.sec_info.inv_valid();
        if let Some(p) = self.sigs {
            p.inv_valid();
        }
    }

    proof fn code_unique(a: ProvingModel, b: ProvingModel) {
        let (x, y) = (a.sigs_code(), b.sigs_code());
        peel::<SectionInfo>(a.sec_info, x, b.sec_info, y);
        assert(x[0] == y.subrange(0, x.len() as int)[0]);
        if let Some(p) = a.sigs {
            let q = b.sigs->0;
            prefix_of_concat(seq![1u8], ProofSet::code(p), seq![1u8], ProofSet::code(q));
            ProofSet::code_unique(p, q);
        }
        assert(a =~= b);
    }

    fn write(&self, out: &mut Vec<u8>) {
        let ghost start = out@;
        self.sec_info.write(out);
        match &self.sigs {
            Some(p) => {
                out.push(1u8);
                p.write(out);
            },
            None => {
                out.push(0u8);
            },
        }
        assert(out@ =~= start + Self::code(self@));
    }
}

impl ProvingSection {
    /// Returns a section that vouches with its signatures.
    pub fn signatures(sec_info: &SectionInfo, sigs: &ProofSet) -> (r: ProvingSection)
        requires
            sec_info.inv(),
            sigs.inv(),
        ensures
            r.inv(),
            r@ == (ProvingModel { sec_info: sec_info@, sigs: Some(sigs@) }),
    {
        ProvingSection { sec_info: sec_info.duplicate(), sigs: Some(sigs.duplicate()) }
    }

    /// Returns a section that vouches as the successor of the other one.
    pub fn successor(sec_info: &SectionInfo) -> (r: ProvingSection)
        requires
            sec_info.inv(),
        ensures
            r.inv(),
            r@ == (ProvingModel { sec_info: sec_info@, sigs: None }),
    {
        ProvingSection { sec_info: sec_info.duplicate(), sigs: None }
    }
}

/// What a node needs to know of a section that it starts in.
#[derive(Debug, PartialEq, Eq)]
pub struct GenesisPfxInfo {
    /// The first section.
    pub first_info: SectionInfo,
    /// The latest section.
    pub latest_info: SectionInfo,
}

} // verus!
