//! Events that the members of a section vote on.

use crate::authority::Authority;
use crate::codes::{compare_codes, list_code, list_code_unique, list_valid, models, peel, write_list};
use crate::id::PublicId;
use crate::order::{prefix_of_concat, Checked, Coded, Key, Order};
use crate::proof_set::{ProofMap, ProofSet};
use crate::section_info::{
    ProvingModel, ProvingSection, SectionInfo, SectionModel, SECTION_INFO_TAG,
};
use crate::sha3::Digest256;
use crate::xor_name::XorName;
use vstd::prelude::*;

verus! {

/// A node that has passed its tests comes online.
#[derive(Clone, Copy, Debug, PartialEq, Eq)]
pub struct OnlinePayload {
    /// The identity that the node has from now on.
    pub new_public_id: PublicId,
    /// The identity that the node had before it was relocated.
    pub old_public_id: PublicId,
    /// The authority that the node can be reached at for now.
    pub client_auth: Authority,
}

/// A node is to be relocated to our section.
#[derive(Clone, Copy, Debug, PartialEq, Eq)]
pub struct ExpectCandidatePayload {
    /// The identity of the node before it is relocated.
    pub old_public_id: PublicId,
    /// The authority that the node can be reached at for now.
    pub old_client_auth: Authority,
    /// The message that announced the node.
    pub message_id: XorName,
    /// The name that the message was sent to.
    pub dst_name: XorName,
}

impl View for OnlinePayload {
    type V = OnlinePayload;

    open spec fn view(&self) -> OnlinePayload {
        *self
    }
}

impl Checked for OnlinePayload {
    open spec fn inv(&self) -> bool {
        self.client_auth.inv()
    }

    fn duplicate(&self) -> (r: Self) {
        *self
    }
}

impl Coded for OnlinePayload {
    open spec fn code(v: OnlinePayload) -> Seq<u8> {
        PublicId::code(v.new_public_id) + (PublicId::code(v.old_public_id) + Authority::code(
            v.client_auth,
        ))
    }

    open spec fn valid(v: OnlinePayload) -> bool {
        v.inv()
    }

    proof fn inv_valid(&self) {
    }

    proof fn code_unique(a: OnlinePayload, b: OnlinePayload) {
        let (x, y) = (Authority::code(a.client_auth), Authority::code(b.client_auth));
        peel::<PublicId>(
            a.new_public_id,
            PublicId::code(a.old_public_id) + x,
            b.new_public_id,
            PublicId::code(b.old_public_id) + y,
        );
        peel::<PublicId>(a.old_public_id, x, b.old_public_id, y);
        Authority::code_unique(a.client_auth, b.client_auth);
    }

    fn write(&self, out: &mut Vec<u8>) {
        let ghost start = out@;
        self.new_public_id.write(out);
        self.old_public_id.write(out);
        self.client_auth.write(out);
        assert(out@ =~= start + Self::code(*self));
    }
}

impl View for ExpectCandidatePayload {
    type V = ExpectCandidatePayload;

    open spec fn view(&self) -> ExpectCandidatePayload {
        *self
    }
}

impl Checked for ExpectCandidatePayload {
    open spec fn inv(&self) -> bool {
        self.old_client_auth.inv()
    }

    fn duplicate(&self) -> (r: Self) {
        *self
    }
}

impl Coded for ExpectCandidatePayload {
    open spec fn code(v: ExpectCandidatePayload) -> Seq<u8> {
        PublicId::code(v.old_public_id) + (Authority::code(v.old_client_auth) + (XorName::code(
            v.message_id,
        ) + XorName::code(v.dst_name)))
    }

    open spec fn valid(v: ExpectCandidatePayload) -> bool {
        v.inv()
    }

    proof fn inv_valid(&self) {
    }

    proof fn code_unique(a: ExpectCandidatePayload, b: ExpectCandidatePayload) {
        let (na, nb) = (XorName::code(a.dst_name), XorName::code(b.dst_name));
        let (ma, mb) = (XorName::code(a.message_id) + na, XorName::code(b.message_id) + nb);
        peel::<PublicId>(
            a.old_public_id,
            Authority::code(a.old_client_auth) + ma,
            b.old_public_id,
            Authority::code(b.old_client_auth) + mb,
        );
        peel::<Authority>(a.old_client_auth, ma, b.old_client_auth, mb);
        peel::<XorName>(a.message_id, na, b.message_id, nb);
        XorName::code_unique(a.dst_name, b.dst_name);
    }

    fn write(&self, out: &mut Vec<u8>) {
        let ghost start = out@;
        self.old_public_id.write(out);
        self.old_client_auth.write(out);
        self.message_id.write(out);
        self.dst_name.write(out);
        assert(out@ =~= start + Self::code(*self));
    }
}

/// An event that the members of a section vote on.
#[derive(Debug, PartialEq, Eq)]
pub enum NetworkEvent {
    /// A node becomes a full member.
    AddElder(PublicId, Authority),
    /// A full member leaves.
    RemoveElder(PublicId),
    /// A node comes online.
    Online(OnlinePayload),
    /// A node goes offline.
    Offline(PublicId),
    /// A node is to be relocated to our section.
    ExpectCandidate(ExpectCandidatePayload),
    /// A node that was to be relocated is given up.
    PurgeCandidate(PublicId),
    /// Our section is to merge.
    OurMerge,
    /// A neighbouring section is to merge.
    NeighbourMerge(Digest256),
    /// A section has changed.
    SectionInfo(SectionInfo),
    /// Sections that vouch for another one.
    ProvingSections(Vec<ProvingSection>, SectionInfo),
}

/// What an event says.
pub enum EventModel {
    AddElder(PublicId, Authority),
    RemoveElder(PublicId),
    Online(OnlinePayload),
    Offline(PublicId),
    ExpectCandidate(ExpectCandidatePayload),
    PurgeCandidate(PublicId),
    OurMerge,
    NeighbourMerge(Digest256),
    SectionInfo(SectionModel),
    ProvingSections(Seq<ProvingModel>, SectionModel),
}

impl EventModel {
    /// The number of the variant.
    pub open spec fn tag(self) -> u8 {
        match self {
            EventModel::AddElder(_, _) => 0,
            EventModel::RemoveElder(_) => 1,
            EventModel::Online(_) => 2,
            EventModel::Offline(_) => 3,
            EventModel::ExpectCandidate(_) => 4,
            EventModel::PurgeCandidate(_) => 5,
            EventModel::OurMerge => 6,
            EventModel::NeighbourMerge(_) => 7,
            EventModel::SectionInfo(_) => SECTION_INFO_TAG,
            EventModel::ProvingSections(_, _) => 9,
        }
    }

    /// The code of what the variant holds.
    pub open spec fn body_code(self) -> Seq<u8> {
        match self {
            EventModel::AddElder(id, auth) => PublicId::code(id) + Authority::code(auth),
            EventModel::RemoveElder(id) => PublicId::code(id),
            EventModel::Online(payload) => OnlinePayload::code(payload),
            EventModel::Offline(id) => PublicId::code(id),
            EventModel::ExpectCandidate(payload) => ExpectCandidatePayload::code(payload),
            EventModel::PurgeCandidate(id) => PublicId::code(id),
            EventModel::OurMerge => Seq::empty(),
            EventModel::NeighbourMerge(digest) => Digest256::code(digest),
            EventModel::SectionInfo(info) => info.bytes(),
            EventModel::ProvingSections(sections, info) => list_code::<ProvingSection>(sections)
                + info.bytes(),
        }
    }

    /// What the event holds is valid.
    pub open spec fn valid(self) -> bool {
        match self {
            EventModel::AddElder(_, auth) => auth.inv(),
            EventModel::Online(payload) => payload.inv(),
            EventModel::ExpectCandidate(payload) => payload.inv(),
            EventModel::SectionInfo(info) => info.valid(),
            EventModel::ProvingSections(sections, info) => list_valid::<ProvingSection>(sections)
                && info.valid(),
            _ => true,
        }
    }

    /// The event confirms a section that confirms `other`.
    pub open spec fn confirms(self, other: SectionModel, proofs: ProofMap) -> bool {
        self matches EventModel::SectionInfo(info) && info.confirms(other, proofs)
    }
}

impl View for NetworkEvent {
    type V = EventModel;

    open spec fn view(&self) -> EventModel {
        match self {
            NetworkEvent::AddElder(id, auth) => EventModel::AddElder(*id, *auth),
            NetworkEvent::RemoveElder(id) => EventModel::RemoveElder(*id),
            NetworkEvent::Online(payload) => EventModel::Online(*payload),
            NetworkEvent::Offline(id) => EventModel::Offline(*id),
            NetworkEvent::ExpectCandidate(payload) => EventModel::ExpectCandidate(*payload),
            NetworkEvent::PurgeCandidate(id) => EventModel::PurgeCandidate(*id),
            NetworkEvent::OurMerge => EventModel::OurMerge,
            NetworkEvent::NeighbourMerge(digest) => EventModel::NeighbourMerge(*digest),
            NetworkEvent::SectionInfo(info) => EventModel::SectionInfo(info@),
            NetworkEvent::ProvingSections(sections, info) => EventModel::ProvingSections(
                models(sections@),
                info@,
            ),
        }
    }
}

/// Returns copies of all elements.
pub fn duplicate_all<T: Checked>(items: &Vec<T>) -> (r: Vec<T>)
    ensures
        models(r@) == models(items@),
        r@.len() == items@.len(),
        forall|i: int| 0 <= i < r@.len() ==> items@[i].inv() ==> (#[trigger] r@[i]).inv(),
{
    let mut r: Vec<T> = Vec::new();
    let mut i: usize = 0;
    while i < items.len()
        invariant
            i <= items@.len(),
            r@.len() == i,
            forall|j: int|
                0 <= j < i ==> (#[trigger] r@[j])@ == items@[j]@ && (items@[j].inv()
                    ==> r@[j].inv()),
        decreases items@.len() - i,
    {
        r.push(items[i].duplicate());
        i += 1;
    }
    assert(models(r@) =~= models(items@));
    r
}

impl Checked for NetworkEvent {
    open spec fn inv(&self) -> bool {
        match self {
            NetworkEvent::AddElder(_, auth) => auth.inv(),
            NetworkEvent::Online(payload) => payload.inv(),
            NetworkEvent::ExpectCandidate(payload) => payload.inv(),
            NetworkEvent::SectionInfo(info) => info.inv(),
            NetworkEvent::ProvingSections(sections, info) => {
                &&& forall|i: int| 0 <= i < sections@.len() ==> (#[trigger] sections@[i]).inv()
                &&& info.inv()
            },
            _ => true,
        }
    }

    fn duplicate(&self) -> (r: Self) {
        match self {
            NetworkEvent::AddElder(id, auth) => NetworkEvent::AddElder(*id, *auth),
            NetworkEvent::RemoveElder(id) => NetworkEvent::RemoveElder(*id),
            NetworkEvent::Online(payload) => NetworkEvent::Online(*payload),
            NetworkEvent::Offline(id) => NetworkEvent::Offline(*id),
            NetworkEvent::ExpectCandidate(payload) => NetworkEvent::ExpectCandidate(*payload),
            NetworkEvent::PurgeCandidate(id) => NetworkEvent::PurgeCandidate(*id),
            NetworkEvent::OurMerge => NetworkEvent::OurMerge,
            NetworkEvent::NeighbourMerge(digest) => NetworkEvent::NeighbourMerge(*digest),
            NetworkEvent::SectionInfo(info) => NetworkEvent::SectionInfo(info.duplicate()),
            NetworkEvent::ProvingSections(sections, info) => NetworkEvent::ProvingSections(
                duplicate_all(sections),
                info.duplicate(),
            ),
        }
    }
}

impl Clone for NetworkEvent {
    fn clone(&self) -> (r: Self)
        ensures
            r@ == self@,
            self.inv() ==> r.inv(),
    {
        self.duplicate()
    }
}

impl Coded for NetworkEvent {
    open spec fn code(v: EventModel) -> Seq<u8> {
        seq![v.tag()] + v.body_code()
    }

    open spec fn valid(v: EventModel) -> bool {
        v.valid()
    }

    proof fn inv_valid(&self) {
        match self {
            NetworkEvent::SectionInfo(info) => {
                info.inv_valid();
            },
            NetworkEvent::ProvingSections(sections, info) => {
                info.inv_valid();
                assert forall|i: int| 0 <= i < sections@.len() implies ProvingSection::valid(
                    #[trigger] models(sections@)[i],
                ) by {
                    assert(sections@[i].inv());
                    sections@[i].inv_valid();
                }
            },
            _ => {},
        }
    }

    proof fn code_unique(a: EventModel, b: EventModel) {
        let ca = Self::code(a);
        let cb = Self::code(b);
        assert(ca[0] == cb.subrange(0, ca.len() as int)[0]);
        assert(ca[0] == a.tag() && cb[0] == b.tag());
        prefix_of_concat(seq![a.tag()], a.body_code(), seq![b.tag()], b.body_code());
        match (a, b) {
            (EventModel::AddElder(x, p), EventModel::AddElder(y, q)) => {
                peel::<PublicId>(x, Authority::code(p), y, Authority::code(q));
                Authority::code_unique(p, q);
            },
            (EventModel::RemoveElder(x), EventModel::RemoveElder(y)) => {
                PublicId::code_unique(x, y);
            },
            (EventModel::Online(x), EventModel::Online(y)) => {
                OnlinePayload::code_unique(x, y);
            },
            (EventModel::Offline(x), EventModel::Offline(y)) => {
                PublicId::code_unique(x, y);
            },
            (EventModel::ExpectCandidate(x), EventModel::ExpectCandidate(y)) => {
                ExpectCandidatePayload::code_unique(x, y);
            },
            (EventModel::PurgeCandidate(x), EventModel::PurgeCandidate(y)) => {
                PublicId::code_unique(x, y);
            },
            (EventModel::NeighbourMerge(x), EventModel::NeighbourMerge(y)) => {
                Digest256::code_unique(x, y);
            },
            (EventModel::SectionInfo(x), EventModel::SectionInfo(y)) => {
                SectionInfo::code_unique(x, y);
            },
            (EventModel::ProvingSections(s, x), EventModel::ProvingSections(t, y)) => {
                let (cs, ct) = (list_code::<ProvingSection>(s), list_code::<ProvingSection>(t));
                prefix_of_concat(cs, x.bytes(), ct, y.bytes());
                if cs.is_prefix_of(ct) {
                    list_code_unique::<ProvingSection>(s, t);
                } else {
                    list_code_unique::<ProvingSection>(t, s);
                }
                SectionInfo::code_unique(x, y);
            },
            _ => {},
        }
    }

    fn write(&self, out: &mut Vec<u8>) {
        let ghost start = out@;
        match self {
            NetworkEvent::AddElder(id, auth) => {
                out.push(0u8);
                id.write(out);
                auth.write(out);
            },
            NetworkEvent::RemoveElder(id) => {
                out.push(1u8);
                id.write(out);
            },
            NetworkEvent::Online(payload) => {
                out.push(2u8);
                payload.write(out);
            },
            NetworkEvent::Offline(id) => {
                out.push(3u8);
                id.write(out);
            },
            NetworkEvent::ExpectCandidate(payload) => {
                out.push(4u8);
                payload.write(out);
            },
            NetworkEvent::PurgeCandidate(id) => {
                out.push(5u8);
                id.write(out);
            },
            NetworkEvent::OurMerge => {
                out.push(6u8);
            },
            NetworkEvent::NeighbourMerge(digest) => {
                out.push(7u8);
                digest.write(out);
            },
            NetworkEvent::SectionInfo(info) => {
                out.push(SECTION_INFO_TAG);
                info.write(out);
            },
            NetworkEvent::ProvingSections(sections, info) => {
                out.push(9u8);
                write_list(sections, out);
                info.write(out);
            },
        }
        assert(out@ =~= start + Self::code(self@));
    }
}

impl Key for NetworkEvent {
    fn compare(&self, other: &Self) -> (o: Order) {
        compare_codes(self, other)
    }
}

impl NetworkEvent {
    /// Returns the section that the event is about, if it is a `SectionInfo`.
    pub fn section_info(&self) -> (r: Option<&SectionInfo>)
        ensures
            match r {
                Some(info) => self@ == EventModel::SectionInfo(info@) && (self.inv()
                    ==> info.inv()),
                None => !(self@ is SectionInfo),
            },
    {
        match self {
            NetworkEvent::SectionInfo(info) => Some(info),
            _ => None,
        }
    }

    /// Returns whether the event is a `SectionInfo` that proves `other` to be its successor.
    pub fn proves_successor_info(&self, other: &SectionInfo, proofs: &ProofSet) -> (r: bool)
        requires
            self.inv(),
            other.inv(),
            proofs.inv(),
        ensures
            r == self@.confirms(other@, proofs@),
    {
        match self {
            NetworkEvent::SectionInfo(info) => info.proves_successor(other, proofs),
            _ => false,
        }
    }
}

} // verus!
