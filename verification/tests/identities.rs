//! Names, prefixes, identities, digests and blocks.

use routing::approved::{handle_block, poll_action, to_proof_set, Action, Block, Observation};
use routing::authority::Authority;
use routing::chain::Chain;
use routing::codes::Bytes;
use routing::error::RoutingError;
use routing::id;
use routing::name_type::{
    calculate_self_relocated_name, hashed_name, public_key_to_client_name, NameType,
};
use routing::network_event::{ExpectCandidatePayload, NetworkEvent, OnlinePayload};
use routing::order::{Coded, Order};
use routing::ordered::{OrderedMap, OrderedSet};
use routing::prefix::Prefix;
use routing::proof_set::Proof;
use routing::public_id::{Id, PublicId};
use routing::section_info::{GenesisPfxInfo, ProvingSection, SectionInfo};
use routing::sha3::digest;
use routing::text::decimal_string;
use routing::xor_name::XorName;

fn prefix(s: &str) -> Prefix {
    Prefix::from_str(s).unwrap()
}

fn name(first: u8) -> XorName {
    let mut bytes = [0u8; 32];
    bytes[0] = first;
    XorName(bytes)
}

fn node(first: u8) -> id::PublicId {
    id::PublicId::new(name(first), Bytes([first; 32]), Bytes([0; 32]))
}

fn hex(bytes: &[u8]) -> String {
    bytes.iter().map(|b| format!("{:02x}", b)).collect()
}

#[test]
fn digests_have_their_known_values() {
    assert_eq!(
        hex(&digest(b"").0),
        "a7ffc6f8bf1ed76651c14756a061d662f580ff4de43b49fa82d80a4b80f8434a"
    );
    assert_eq!(
        hex(&hashed_name(b"").0),
        "cf83e1357eefb8bdf1542850d66d8007d620e4050b5715dc83f4a921d36ce9ce\
         47d0d13c5d85f2b0ff8318d2877eec2f63b931bd47417a81a538327af927da3e"
    );
}

#[test]
fn prefixes_are_read_from_digits() {
    assert_eq!(prefix("").bit_count(), 0);
    assert!(prefix("").is_empty());
    assert_eq!(prefix("010").bit_count(), 3);
    assert!(!prefix("010").bit(0) && prefix("010").bit(1));
    assert!(Prefix::from_str("012").is_none());
    let long: String = (0..256).map(|_| '1').collect();
    assert_eq!(Prefix::from_str(&long).unwrap().bit_count(), 256);
    let too_long: String = (0..257).map(|_| '1').collect();
    assert!(Prefix::from_str(&too_long).is_none());
}

#[test]
fn prefixes_relate_to_each_other() {
    let p = prefix("01");
    assert!(p.matches(&name(0x40)) && p.matches(&name(0x7f)) && !p.matches(&name(0x80)));
    assert!(p.is_compatible(&prefix("0")) && p.is_compatible(&prefix("011")));
    assert!(!p.is_compatible(&prefix("00")));
    assert!(p.is_extension_of(&prefix("0")) && !p.is_extension_of(&p));
    assert!(p.is_neighbour(&prefix("00")) && p.is_neighbour(&prefix("11")));
    assert!(p.is_neighbour(&prefix("110")) && !p.is_neighbour(&prefix("10")));
    assert!(!p.is_neighbour(&prefix("0")) && !p.is_neighbour(&p));
    assert_eq!(p.pushed(true), prefix("011"));
    assert_eq!(p.popped(), prefix("0"));
    assert_eq!(p.sibling(), prefix("00"));
    assert_eq!(prefix("").popped(), prefix(""));
    assert_eq!(p.lower_bound(), name(0x40));
    assert_eq!(p.common_prefix(&name(0x00)), 1);
    assert_eq!(p.order_distance(&prefix("1"), &name(0x00)), Order::Less);
    assert_eq!(p.order_distance(&prefix("00"), &name(0x00)), Order::Greater);
    assert_eq!(p.order_distance(&p, &name(0x00)), Order::Equal);
    let mut known = OrderedSet::new();
    let _ = known.insert(prefix("00"));
    assert!(!prefix("0").is_covered_by(&known));
    let _ = known.insert(prefix("010"));
    let _ = known.insert(prefix("011"));
    assert!(prefix("0").is_covered_by(&known));
    assert!(!prefix("").is_covered_by(&known));
}

#[test]
fn names_are_compared_by_xor() {
    assert_eq!(name(0x40).common_prefix(&name(0x41)), 7);
    assert_eq!(name(0x40).common_prefix(&name(0x40)), 256);
    assert_eq!(name(0x50).order_distance(&name(0x40), &name(0x60)), Order::Less);
    assert_eq!(name(0x50).order_distance(&name(0x60), &name(0x40)), Order::Greater);
    assert_eq!(name(0x50).order_distance(&name(0x60), &name(0x60)), Order::Equal);
    assert!(name(0x40).bit(1) && !name(0x40).bit(0));
    assert_eq!(name(0x40).with_bit(0, true), name(0xc0));
    assert_eq!(name(0x40).with_bit(1, false), name(0x00));
}

#[test]
fn collections_keep_their_keys_in_order() {
    let mut set = OrderedSet::new();
    for first in [5u8, 1, 3, 1] {
        let _ = set.insert(name(first));
    }
    assert_eq!(set.len(), 3);
    let firsts: Vec<u8> = (0..3).map(|i| set.at(i).0[0]).collect();
    assert_eq!(firsts, vec![1, 3, 5]);
    assert!(set.remove(&name(3)) && !set.remove(&name(3)));
    assert!(set.contains(&name(5)) && !set.contains(&name(3)));

    let mut map: OrderedMap<XorName, u64> = OrderedMap::new();
    assert_eq!(map.insert(name(2), 20), None);
    assert_eq!(map.insert(name(1), 10), None);
    assert_eq!(map.insert(name(2), 21), Some(20));
    assert_eq!(map.get(&name(2)), Some(&21));
    assert_eq!(map.get(&name(3)), None);
    assert_eq!(*map.key_at(0), name(1));
    *map.value_mut(0) = 11;
    assert_eq!(map.remove(&name(1)), Some(11));
    assert_eq!(map.len(), 1);
}

#[test]
fn sections_are_known_by_their_digests() {
    let mut members = OrderedSet::new();
    let _ = members.insert(node(1));
    let info = SectionInfo::new(members, prefix("0"), None);
    let mut bytes = Vec::new();
    info.write(&mut bytes);
    assert_eq!(*info.hash(), digest(&bytes));
    let same = info.clone();
    assert!(info.same(&same));
    let next = SectionInfo::new(OrderedSet::new(), prefix("0"), Some(&info));
    assert!(next.is_successor_of(&info) && !info.is_successor_of(&next));
    assert!(!next.same(&info) && next.hash() != info.hash());
}

fn some_id(given: Option<NameType>) -> Id {
    Id { public_key: Bytes([1; 32]), public_sign_key: Bytes([2; 32]), name: given }
}

#[test]
fn public_id_shows_the_name_that_was_given() {
    assert_eq!(PublicId::new(&some_id(None)).name(), None);
    let given = Bytes([9; 64]);
    let id = PublicId::new(&some_id(Some(given)));
    assert_eq!(id.name(), Some(given));
    assert_eq!(id.contents(), (Bytes([1; 32]), Bytes([2; 32]), Some(given)));
}

#[test]
fn client_name_is_the_digest_of_the_signing_key() {
    let id = PublicId::new(&some_id(None));
    assert_eq!(id.client_name(), hashed_name(&[2; 32]));
    assert_eq!(id.client_name(), public_key_to_client_name(&Bytes([2; 32])));
    assert_ne!(id.client_name().0[..32], [2; 32]);
}

#[test]
fn self_relocated_name_is_recognised() {
    let token = Bytes([3; 64]);
    let mut bytes = vec![2u8; 32];
    bytes.extend_from_slice(&[1; 32]);
    bytes.extend_from_slice(&[3; 64]);
    let expected = hashed_name(&hashed_name(&bytes).0);
    assert_eq!(
        calculate_self_relocated_name(&Bytes([2; 32]), &Bytes([1; 32]), &token),
        expected
    );
    assert!(PublicId::new(&some_id(Some(expected))).is_self_relocated(&token));
    assert!(!PublicId::new(&some_id(Some(expected))).is_self_relocated(&Bytes([4; 64])));
    assert!(!PublicId::new(&some_id(Some(Bytes([9; 64])))).is_self_relocated(&token));
    assert!(!PublicId::new(&some_id(None)).is_self_relocated(&token));
}

#[test]
fn relocated_name_is_assigned_once() {
    let (old, new) = (Bytes([9; 64]), Bytes([8; 64]));
    let mut id = PublicId::new(&some_id(Some(old)));
    assert!(!id.assign_relocated_name(old));
    assert_eq!(id.name(), Some(old));
    assert!(id.assign_relocated_name(new));
    assert_eq!(id.name(), Some(new));
    assert!(!id.assign_relocated_name(new));
    let mut nameless = PublicId::new(&some_id(None));
    assert!(!nameless.assign_relocated_name(new));
    assert_eq!(nameless.name(), None);
}

#[test]
fn numbers_are_shown_in_decimal() {
    for n in [0u64, 7, 10, 99, 100, 65536, u64::MAX] {
        assert_eq!(decimal_string(n), n.to_string());
    }
}

fn signed(first: u8, sig: u8) -> Proof {
    Proof { pub_id: node(first), sig: Bytes([sig; 64]) }
}

fn chain() -> Chain {
    let mut members = OrderedSet::new();
    for first in [0x00, 0x10, 0x20] {
        let _ = members.insert(node(first));
    }
    let first_info = SectionInfo::new(members, prefix("0"), None);
    Chain::new(2, node(0x00), GenesisPfxInfo { first_info, latest_info: Default::default() })
}

fn block(payload: Observation) -> Block {
    Block { payload, proofs: vec![signed(0x00, 1), signed(0x10, 2)] }
}

#[test]
fn signatures_of_a_block_are_collected() {
    let block = Block {
        payload: Observation::Genesis,
        proofs: vec![signed(0x10, 1), signed(0x00, 2), signed(0x10, 3)],
    };
    let set = to_proof_set(&block);
    assert_eq!(set.sigs.len(), 2);
    assert_eq!(set.sigs.get(&node(0x10)), Some(&Bytes([3; 64])));
    assert_eq!(set.sigs.get(&node(0x00)), Some(&Bytes([2; 64])));
    let empty = Block { payload: Observation::Genesis, proofs: vec![] };
    assert_eq!(to_proof_set(&empty).sigs.len(), 0);
}

#[test]
fn blocks_about_the_membership_lead_to_actions() {
    let mut chain = chain();
    let auth = Authority::ManagedNode(name(0x30));
    let add = Observation::Add { peer_id: node(0x30), related_info: Some(auth) };
    assert_eq!(handle_block(&mut chain, &block(add)), Ok(true));
    assert_eq!(poll_action(&mut chain), Ok(Some(Action::AddElder(node(0x30), auth))));
    let remove = Observation::Remove { peer_id: node(0x20) };
    assert_eq!(handle_block(&mut chain, &block(remove)), Ok(true));
    assert_eq!(poll_action(&mut chain), Ok(Some(Action::RemoveElder(node(0x20)))));
    assert_eq!(poll_action(&mut chain), Ok(None));
}

#[test]
fn block_with_spoiled_information_is_refused() {
    let mut chain = chain();
    let add = Observation::Add { peer_id: node(0x30), related_info: None };
    assert_eq!(handle_block(&mut chain, &block(add)), Err(RoutingError::Serialisation));
    assert_eq!(poll_action(&mut chain), Ok(None));
}

#[test]
fn genesis_and_unsigned_blocks_change_nothing() {
    let mut chain = chain();
    assert_eq!(handle_block(&mut chain, &block(Observation::Genesis)), Ok(false));
    let event = NetworkEvent::OurMerge;
    let unsigned = Block { payload: Observation::OpaquePayload(event), proofs: vec![] };
    assert_eq!(handle_block(&mut chain, &unsigned), Ok(true));
    assert_eq!(poll_action(&mut chain), Ok(None));
}

#[test]
fn only_the_first_signature_of_a_vote_counts() {
    let mut chain = chain();
    let vote = || Observation::OpaquePayload(NetworkEvent::OurMerge);
    assert_eq!(handle_block(&mut chain, &block(vote())), Ok(true));
    assert_eq!(poll_action(&mut chain), Ok(None));
    let second = Block { payload: vote(), proofs: vec![signed(0x20, 5)] };
    assert_eq!(handle_block(&mut chain, &second), Ok(true));
    assert_eq!(poll_action(&mut chain), Ok(Some(Action::OurMerge)));
}

#[test]
fn each_event_has_its_action() {
    let auth = Authority::ManagedNode(name(0x30));
    let online = OnlinePayload {
        new_public_id: node(0x31),
        old_public_id: node(0x30),
        client_auth: auth,
    };
    let expect = ExpectCandidatePayload {
        old_public_id: node(0x30),
        old_client_auth: auth,
        message_id: name(1),
        dst_name: name(2),
    };
    let next = SectionInfo::new(OrderedSet::new(), prefix("0"), Some(chain().our_info()));
    let sections = vec![ProvingSection::successor(&next)];
    let cases = vec![
        (NetworkEvent::Online(online), Action::Online(online)),
        (NetworkEvent::Offline(node(0x20)), Action::Offline(node(0x20))),
        (NetworkEvent::ExpectCandidate(expect), Action::ExpectCandidate(expect)),
        (NetworkEvent::PurgeCandidate(node(0x20)), Action::PurgeCandidate(node(0x20))),
        (NetworkEvent::NeighbourMerge(Bytes([1; 32])), Action::NeighbourMerge),
        (
            NetworkEvent::SectionInfo(next.clone()),
            Action::SectionInfo { sec_info: next.clone(), old_pfx: prefix("0") },
        ),
        (
            NetworkEvent::ProvingSections(sections.clone(), next.clone()),
            Action::ProvingSections(sections, next),
        ),
    ];
    for (event, action) in cases {
        let mut chain = chain();
        for first in [0x00, 0x10] {
            let payload = Observation::OpaquePayload(event.clone());
            let vote = Block { payload, proofs: vec![signed(first, 1)] };
            assert_eq!(handle_block(&mut chain, &vote), Ok(true));
        }
        assert_eq!(poll_action(&mut chain), Ok(Some(action)));
    }
}
