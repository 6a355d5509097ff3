//! Where messages go, who vouches for them, and who belongs where.

use routing::authority::Authority;
use routing::candidate::XorTargetInterval;
use routing::chain::Chain;
use routing::codes::Bytes;
use routing::error::{Error, RoutingError};
use routing::id::PublicId;
use routing::message::{RoutingMessage, SignedRoutingMessage};
use routing::network_event::{NetworkEvent, OnlinePayload};
use routing::ordered::OrderedSet;
use routing::prefix::Prefix;
use routing::proof_set::{Proof, ProofSet};
use routing::delivery::delivery_group_size;
use routing::section_info::{GenesisPfxInfo, SectionInfo};
use routing::xor_name::XorName;

fn prefix(s: &str) -> Prefix {
    Prefix::from_str(s).unwrap()
}

fn name(first: u8, last: u8) -> XorName {
    let mut bytes = [0u8; 32];
    bytes[0] = first;
    bytes[31] = last;
    XorName(bytes)
}

fn id(first: u8, last: u8) -> PublicId {
    PublicId::new(name(first, last), Bytes([last; 32]), Bytes([first; 32]))
}

fn set(ids: &[PublicId]) -> OrderedSet<PublicId> {
    let mut r = OrderedSet::new();
    for id in ids {
        let _ = r.insert(*id);
    }
    r
}

fn votes(ids: &[PublicId]) -> ProofSet {
    let mut r = ProofSet::new();
    for id in ids {
        let _ = r.add_proof(Proof { pub_id: *id, sig: Bytes([7; 64]) });
    }
    r
}

fn names(set: &OrderedSet<XorName>) -> Vec<XorName> {
    (0..set.len()).map(|i| *set.at(i)).collect()
}

const OURS: [(u8, u8); 3] = [(0x00, 1), (0x10, 2), (0x20, 3)];
const NEXT: [(u8, u8); 3] = [(0x40, 4), (0x50, 5), (0x60, 6)];
const FAR: [(u8, u8); 4] = [(0x80, 7), (0x90, 8), (0xa0, 9), (0xb0, 10)];

fn ids(of: &[(u8, u8)]) -> Vec<PublicId> {
    of.iter().map(|&(first, last)| id(first, last)).collect()
}

fn info(of: &[(u8, u8)], pfx: &str) -> SectionInfo {
    SectionInfo::new(set(&ids(of)), prefix(pfx), None)
}

/// Our section 00 with the neighbours 01 and 10.
fn table() -> Chain {
    let first_info = info(&OURS, "00");
    let mut chain = Chain::new(
        3,
        id(0x00, 1),
        GenesisPfxInfo { first_info, latest_info: Default::default() },
    );
    chain.add_section_info(info(&NEXT, "01"), votes(&ids(&OURS))).unwrap();
    chain.add_section_info(info(&FAR, "10"), votes(&ids(&OURS))).unwrap();
    chain
}

fn all_names() -> Vec<XorName> {
    OURS.iter().chain(NEXT.iter()).chain(FAR.iter()).map(|&(f, l)| name(f, l)).collect()
}

fn targets(
    chain: &Chain,
    dst: Authority,
    peers: &[XorName],
) -> Result<(Vec<XorName>, usize), Error> {
    let refs: Vec<&XorName> = peers.iter().collect();
    chain.targets(&dst, &refs)
}

#[test]
fn delivery_group_is_a_third_of_the_section() {
    assert_eq!(delivery_group_size(0), 0);
    assert_eq!(delivery_group_size(1), 1);
    assert_eq!(delivery_group_size(3), 1);
    assert_eq!(delivery_group_size(4), 2);
    assert_eq!(delivery_group_size(8), 3);
    for n in 0..100 {
        assert!(3 * delivery_group_size(n) >= n && 3 * delivery_group_size(n) < n + 3);
    }
}

#[test]
fn table_holds_all_sections() {
    let chain = table();
    assert_eq!(chain.len(), 9);
    assert_eq!(chain.prefixes().len(), 3);
    assert_eq!(chain.other_prefixes().len(), 2);
    assert!(chain.prefixes().contains(&prefix("00")));
    assert!(!chain.other_prefixes().contains(&prefix("00")));
    let sections = chain.all_sections();
    let pfxs: Vec<Prefix> = sections.iter().map(|s| s.0).collect();
    assert_eq!(pfxs, vec![prefix("01"), prefix("10"), prefix("00")]);
    assert_eq!(sections[1].1, &info(&FAR, "10"));
    assert_eq!(chain.valid_peers().len(), 10);
    assert!(chain.is_peer_valid(&id(0xb0, 10)));
    assert!(!chain.is_peer_valid(&id(0xb0, 11)));
    assert_eq!(chain.our_section().len(), 3);
    assert_eq!(chain.min_len_prefix(), prefix("00"));
    assert!(!chain.knows_whole_network());
}

#[test]
fn shortest_prefix_is_found() {
    let first_info = info(&OURS, "00");
    let mut chain = Chain::new(
        3,
        id(0x00, 1),
        GenesisPfxInfo { first_info, latest_info: Default::default() },
    );
    chain.add_section_info(info(&FAR, "1"), votes(&ids(&OURS))).unwrap();
    assert_eq!(chain.min_len_prefix(), prefix("1"));
    assert!(!chain.knows_whole_network());
    chain.add_section_info(info(&NEXT, "01"), votes(&ids(&OURS))).unwrap();
    assert_eq!(chain.min_len_prefix(), prefix("1"));
    assert!(chain.knows_whole_network());
}

#[test]
fn new_member_counts_as_peer_at_once() {
    let mut chain = table();
    let newcomer = id(0x30, 20);
    assert!(!chain.is_peer_valid(&newcomer));
    let _ = chain.add_member(newcomer).unwrap();
    assert!(chain.is_peer_valid(&newcomer));
    assert_eq!(chain.valid_peers().len(), 11);
    assert_eq!(chain.len(), 9);
}

#[test]
fn message_to_a_single_node() {
    let chain = table();
    let all = all_names();
    let node = |n: XorName| Authority::ManagedNode(n);
    assert_eq!(targets(&chain, node(name(0x00, 1)), &all), Ok((vec![], 0)));
    assert_eq!(targets(&chain, node(name(0x90, 8)), &all), Ok((vec![name(0x90, 8)], 1)));
    // Through the proxy of a client.
    let client = Authority::Client { client_id: id(0xff, 99), proxy_node_name: name(0x90, 8) };
    assert_eq!(targets(&chain, client, &all), Ok((vec![name(0x90, 8)], 1)));
    // Not connected: all of its section that we can reach, the nearest first.
    let others: Vec<XorName> = all.iter().filter(|n| **n != name(0x90, 8)).cloned().collect();
    assert_eq!(
        targets(&chain, node(name(0x90, 8)), &others),
        Ok((vec![name(0x80, 7), name(0xb0, 10), name(0xa0, 9)], 2))
    );
    // Not known, and beyond the table: 1100... is nearest to section 10.
    assert_eq!(
        targets(&chain, node(name(0xc0, 0)), &all),
        Ok((vec![name(0x80, 7), name(0x90, 8), name(0xa0, 9), name(0xb0, 10)], 2))
    );
}

#[test]
fn section_that_is_badly_connected_is_passed_over() {
    let chain = table();
    // One of four is less than a third: the message goes to section 00 instead.
    let peers = vec![name(0x80, 7), name(0x10, 2)];
    assert_eq!(
        targets(&chain, Authority::ManagedNode(name(0x90, 8)), &peers),
        Ok((vec![name(0x10, 2)], 1))
    );
    assert_eq!(
        targets(&chain, Authority::ManagedNode(name(0x90, 8)), &[]),
        Err(Error::CannotRoute)
    );
}

#[test]
fn message_to_a_group() {
    let chain = table();
    let all = all_names();
    // Our section's prefix begins this name.
    let expected = vec![name(0x10, 2), name(0x20, 3)];
    for dst in [
        Authority::ClientManager(name(0x00, 2)),
        Authority::NaeManager(name(0x00, 2)),
        Authority::NodeManager(name(0x00, 2)),
    ] {
        assert_eq!(targets(&chain, dst, &all), Ok((expected.clone(), 2)));
        let refs: Vec<&XorName> = all.iter().collect();
        assert!(chain.in_authority(&dst, &refs));
    }
    let far = Authority::NaeManager(name(0xa0, 9));
    assert_eq!(
        targets(&chain, far, &all),
        Ok((vec![name(0xa0, 9), name(0xb0, 10), name(0x80, 7), name(0x90, 8)], 2))
    );
    let refs: Vec<&XorName> = all.iter().collect();
    assert!(!chain.in_authority(&far, &refs));
}

#[test]
fn message_to_a_group_reaches_the_whole_section() {
    let members = [(0x00, 1), (0x10, 2), (0x20, 3), (0x30, 4), (0x31, 5)];
    let first_info = info(&members, "00");
    let chain = Chain::new(
        3,
        id(0x00, 1),
        GenesisPfxInfo { first_info, latest_info: Default::default() },
    );
    let all: Vec<XorName> = members.iter().map(|&(f, l)| name(f, l)).collect();
    // There are more members than a section has at least, and we are far from the second name.
    for target in [name(0x00, 2), name(0x3f, 0xff)] {
        for dst in [
            Authority::ClientManager(target),
            Authority::NaeManager(target),
            Authority::NodeManager(target),
            Authority::Section(target),
        ] {
            assert_eq!(targets(&chain, dst, &all), Ok((all[1..].to_vec(), 4)));
            assert_eq!(targets(&chain, dst, &all[3..]), Ok((all[3..].to_vec(), 2)));
            assert_eq!(targets(&chain, dst, &[]), Ok((vec![], 0)));
        }
    }
}

#[test]
fn message_beyond_the_table_is_sent_on_to_a_third() {
    let members = [(0x80, 1), (0x90, 2), (0xa0, 3)];
    let first_info = info(&members, "1");
    let chain = Chain::new(
        3,
        id(0x80, 1),
        GenesisPfxInfo { first_info, latest_info: Default::default() },
    );
    let all: Vec<XorName> = members.iter().map(|&(f, l)| name(f, l)).collect();
    // Ours is the only section that we know, but not the one that the name belongs to.
    assert_eq!(chain.closest_section(&name(0x00, 0)).0, prefix("1"));
    for dst in [
        Authority::Section(name(0x00, 0)),
        Authority::ClientManager(name(0x00, 0)),
        Authority::NaeManager(name(0x00, 0)),
        Authority::NodeManager(name(0x00, 0)),
    ] {
        assert_eq!(
            targets(&chain, dst, &all),
            Ok((vec![name(0x90, 2), name(0xa0, 3)], 1))
        );
        assert_eq!(targets(&chain, dst, &[]), Err(Error::CannotRoute));
    }
}

#[test]
fn closest_section_has_members() {
    let chain = table();
    let (pfx, members) = chain.closest_section(&name(0x5f, 0));
    assert_eq!(pfx, prefix("01"));
    assert_eq!(names(&members), vec![name(0x40, 4), name(0x50, 5), name(0x60, 6)]);
    assert_eq!(chain.closest_section(&name(0x3f, 0)).0, prefix("00"));
    assert_eq!(chain.closest_section(&name(0xff, 0)).0, prefix("10"));

    // Our section has lost all members.
    let mut chain = chain;
    let emptied = SectionInfo::new(set(&[]), prefix("00"), Some(chain.our_info()));
    chain.add_section_info(emptied.clone(), votes(&ids(&OURS))).unwrap();
    assert_eq!(chain.our_info(), &emptied);
    assert_eq!(chain.closest_section(&name(0x00, 0)).0, prefix("01"));
    assert_eq!(chain.closest_section(&name(0xff, 0)).0, prefix("10"));

    // An empty neighbour is passed over.
    let first_info = info(&OURS, "00");
    let mut chain = Chain::new(
        3,
        id(0x00, 1),
        GenesisPfxInfo { first_info, latest_info: Default::default() },
    );
    chain.add_section_info(info(&[], "01"), votes(&ids(&OURS))).unwrap();
    assert_eq!(chain.closest_section(&name(0x5f, 0)).0, prefix("00"));
    // All sections are empty.
    let emptied = SectionInfo::new(set(&[]), prefix("00"), Some(chain.our_info()));
    chain.add_section_info(emptied, votes(&ids(&OURS))).unwrap();
    let (pfx, members) = chain.closest_section(&name(0x5f, 0));
    assert_eq!(pfx, prefix("00"));
    assert!(members.is_empty());
}

#[test]
fn table_counts_others_where_we_are_no_member() {
    let first_info = info(&OURS, "00");
    let mut chain = Chain::new(
        3,
        id(0x30, 9),
        GenesisPfxInfo { first_info, latest_info: Default::default() },
    );
    assert!(!chain.is_member());
    assert_eq!(chain.len(), 3);
    chain.add_section_info(info(&NEXT, "01"), votes(&ids(&OURS))).unwrap();
    assert_eq!(chain.len(), 6);
    let first_info = info(&[], "00");
    let empty = Chain::new(
        3,
        id(0x30, 9),
        GenesisPfxInfo { first_info, latest_info: Default::default() },
    );
    assert_eq!(empty.len(), 0);
}

#[test]
fn message_to_a_section() {
    let chain = table();
    let all = all_names();
    let ours = Authority::Section(name(0x3f, 0));
    assert_eq!(targets(&chain, ours, &all), Ok((vec![name(0x10, 2), name(0x20, 3)], 2)));
    assert_eq!(targets(&chain, ours, &[name(0x20, 3)]), Ok((vec![name(0x20, 3)], 1)));
    let refs: Vec<&XorName> = all.iter().collect();
    assert!(chain.in_authority(&ours, &refs));
    let next = Authority::Section(name(0x5f, 0));
    assert!(!chain.in_authority(&next, &refs));
    assert_eq!(
        targets(&chain, next, &all),
        Ok((vec![name(0x50, 5), name(0x40, 4), name(0x60, 6)], 1))
    );
}

#[test]
fn message_to_all_sections_under_a_prefix() {
    let chain = table();
    let all = all_names();
    let under = |s: &str| Authority::PrefixSection(prefix(s));
    assert_eq!(
        targets(&chain, under("0"), &all),
        Ok((
            vec![name(0x40, 4), name(0x50, 5), name(0x60, 6), name(0x10, 2), name(0x20, 3)],
            5
        ))
    );
    // We do not know section 11.
    assert_eq!(targets(&chain, under(""), &all), Err(Error::CannotRoute));
    assert_eq!(
        targets(&chain, under("10"), &all),
        Ok((vec![name(0x80, 7), name(0x90, 8), name(0xa0, 9), name(0xb0, 10)], 2))
    );
    let refs: Vec<&XorName> = all.iter().collect();
    assert!(chain.in_authority(&under("0"), &refs));
    assert!(!chain.in_authority(&under("10"), &refs));
}

#[test]
fn clients_and_single_nodes_as_authorities() {
    let chain = table();
    let all = all_names();
    let refs: Vec<&XorName> = all.iter().collect();
    assert!(chain.in_authority(&Authority::ManagedNode(name(0x00, 1)), &refs));
    assert!(!chain.in_authority(&Authority::ManagedNode(name(0x10, 2)), &refs));
    let client = Authority::Client { client_id: id(0x00, 1), proxy_node_name: name(0x00, 1) };
    assert!(!chain.in_authority(&client, &refs));
}

#[test]
fn closest_names_come_nearest_first() {
    let chain = table();
    let all = all_names();
    let refs: Vec<&XorName> = all.iter().collect();
    // From 0x48: first 01 by distance, then 00, then 10.
    let near = chain.closest_names(&name(0x48, 0), 6, &refs).expect("we are close");
    assert_eq!(
        near,
        vec![
            name(0x40, 4),
            name(0x50, 5),
            name(0x60, 6),
            name(0x00, 1),
            name(0x10, 2),
            name(0x20, 3)
        ]
    );
    for pair in near.windows(2) {
        let nearer: Vec<u8> =
            pair[0].0.iter().zip(name(0x48, 0).0.iter()).map(|(a, b)| a ^ b).collect();
        let farther: Vec<u8> =
            pair[1].0.iter().zip(name(0x48, 0).0.iter()).map(|(a, b)| a ^ b).collect();
        assert!(nearer <= farther);
    }
    assert_eq!(chain.closest_names(&name(0x48, 0), 3, &refs), None);
    let others: Vec<XorName> = near.iter().filter(|n| **n != name(0x00, 1)).cloned().collect();
    assert_eq!(chain.other_closest_names(&name(0x48, 0), 6, &refs), Some(others));
    assert_eq!(chain.other_closest_names(&name(0x48, 0), 3, &refs), None);
}

#[test]
fn close_names_are_those_of_our_section() {
    let chain = table();
    assert_eq!(
        chain.close_names(&name(0x3f, 0)),
        Some(vec![name(0x00, 1), name(0x10, 2), name(0x20, 3)])
    );
    assert_eq!(chain.close_names(&name(0x40, 0)), None);
    let others = chain.other_close_names(&name(0x3f, 0)).expect("close names");
    assert_eq!(names(&others), vec![name(0x10, 2), name(0x20, 3)]);
    assert!(chain.other_close_names(&name(0x40, 0)).is_none());
}

/// Lets our section lose nobody, `n` times.
fn advance(chain: &mut Chain, n: usize) {
    for _ in 0..n {
        let next = chain.remove_member(id(0x3f, 77)).unwrap();
        chain.add_section_info(next, votes(&ids(&OURS))).unwrap();
    }
}

#[test]
fn sections_that_are_known_are_trusted() {
    let mut chain = table();
    let first = chain.our_info().clone();
    advance(&mut chain, 1);
    assert!(chain.is_trusted(&first, false));
    assert!(chain.is_trusted(&info(&FAR, "10"), false));
    assert!(!chain.is_new(&first));
    assert!(!chain.is_new(&info(&FAR, "10")));
    let next = SectionInfo::new(set(&ids(&FAR)), prefix("10"), Some(&info(&FAR, "10")));
    assert!(!chain.is_trusted(&next, true));
    assert!(chain.is_new(&next));
    assert!(chain.is_new_neighbour(&next));
    let opposite = SectionInfo::new(set(&[id(0xc0, 30)]), prefix("11"), None);
    assert!(chain.is_new(&opposite));
    assert!(!chain.is_new_neighbour(&opposite));
    // A section that we have signed is trusted on request, and is no longer new.
    let vote = Proof { pub_id: id(0x00, 1), sig: Bytes([7; 64]) };
    chain.handle_opaque_event(&NetworkEvent::SectionInfo(next.clone()), vote).unwrap();
    assert!(chain.is_trusted(&next, true));
    assert!(!chain.is_trusted(&next, false));
    assert!(!chain.is_new(&next));
    assert!(!chain.is_new_neighbour(&next));
}

#[test]
fn proving_sections_lead_from_a_neighbour_to_us() {
    let mut chain = table();
    let far = info(&FAR, "10");
    let first = chain.our_info().clone();
    // The next hop towards our own section.
    let sections = chain.get_proving_sections(&far, name(0x3f, 0)).unwrap();
    assert_eq!(sections.len(), 1);
    assert_eq!(sections[0].sec_info, first);
    assert_eq!(sections[0].sigs, Some(votes(&ids(&OURS))));

    // Our section changes so that its present members have not signed the neighbour.
    let newcomers = set(&[id(0x00, 1), id(0x31, 40), id(0x32, 41), id(0x33, 42), id(0x34, 43)]);
    let second = SectionInfo::new(newcomers, prefix("00"), Some(&first));
    chain.add_section_info(second.clone(), votes(&ids(&OURS))).unwrap();
    let sections = chain.get_proving_sections(&far, name(0x3f, 0)).unwrap();
    assert_eq!(sections.len(), 2);
    assert_eq!(sections[0].sec_info, first);
    assert_eq!(sections[1].sec_info, second);
    assert_eq!(sections[1].sigs, None);
    assert!(sections[1].sec_info.is_successor_of(&sections[0].sec_info));

    // A section that is followed by a neighbour.
    let next = SectionInfo::new(set(&ids(&FAR)), prefix("10"), Some(&far));
    chain.add_section_info(next.clone(), votes(&ids(&OURS))).unwrap();
    let sections = chain.get_proving_sections(&far, name(0x3f, 0)).unwrap();
    assert_eq!(sections.len(), 3);
    assert_eq!(sections[0].sec_info, next);
    assert_eq!(sections[0].sigs, None);
    assert_eq!(sections[1].sec_info, first);

    assert_eq!(
        chain.get_proving_sections(&info(&NEXT, "11"), name(0x3f, 0)),
        Err(RoutingError::UnknownPrevHop)
    );
}

#[test]
fn proving_sections_lead_to_what_the_next_hop_knows() {
    let mut chain = table();
    advance(&mut chain, 3);
    let versions = |chain: &Chain, from: &SectionInfo, dst: XorName| -> Vec<(u64, bool)> {
        chain
            .get_proving_sections(from, dst)
            .unwrap()
            .iter()
            .map(|s| (s.sec_info.version(), s.sigs.is_some()))
            .collect()
    };
    let latest = chain.our_info().clone();
    // Nothing is known of the next hop: back to the oldest section, and on to the latest.
    assert_eq!(
        versions(&chain, &latest, name(0xa0, 0)),
        vec![(2, true), (1, true), (0, true), (1, false), (2, false), (3, false)]
    );
    chain.update_their_knowledge(prefix("10"), 2);
    assert_eq!(versions(&chain, &latest, name(0xa0, 0)), vec![(2, true), (3, false)]);
    chain.update_their_knowledge(prefix("10"), 3);
    assert_eq!(versions(&chain, &latest, name(0xa0, 0)), vec![]);
    // That section is no nearer to this name than ours.
    assert_eq!(versions(&chain, &latest, name(0x40, 0)).len(), 6);
}

#[test]
fn lost_section_cannot_prove_a_neighbour() {
    let mut chain = table();
    let far = info(&FAR, "10");
    let mut first = chain.our_info().clone();
    for i in 0..2 {
        let members = set(&[id(0x00, 1), id(0x31, 40 + i), id(0x32, 50 + i), id(0x33, 60 + i)]);
        let next = SectionInfo::new(members, prefix("00"), Some(&first));
        chain.add_section_info(next.clone(), votes(&[])).unwrap();
        first = next;
    }
    chain.update_their_knowledge(prefix("10"), 2);
    let _ = chain.finalise_prefix_change().unwrap();
    assert_eq!(
        chain.get_proving_sections(&far, name(0x3f, 0)),
        Err(RoutingError::InvalidStateForOperation)
    );
}

fn message(src_section: Option<SectionInfo>, dst: XorName) -> SignedRoutingMessage {
    let message = RoutingMessage {
        src: Authority::Section(name(0x80, 0)),
        dst: Authority::Section(dst),
        content: vec![1, 2, 3],
    };
    SignedRoutingMessage::new(message, src_section)
}

#[test]
fn message_is_extended_with_our_proof() {
    let chain = table();
    let mut msg = message(Some(info(&FAR, "10")), name(0x3f, 0));
    chain.extend_proving_sections(&mut msg).unwrap();
    assert_eq!(msg.proving_sections().len(), 1);
    assert_eq!(msg.previous_hop(), Some(chain.our_info()));
    assert_eq!(msg.routing_message().content, vec![1, 2, 3]);

    // A message of a single sender needs no proof.
    let mut single = message(None, name(0x3f, 0));
    assert_eq!(chain.extend_proving_sections(&mut single), Ok(()));
    assert!(single.proving_sections().is_empty());
}

#[test]
fn hops_that_are_not_known_are_dropped() {
    let chain = table();
    let unknown = info(&[(0xc0, 31)], "11");
    let mut msg = message(Some(info(&FAR, "10")), name(0x3f, 0));
    msg.extend_proving_sections(vec![routing::section_info::ProvingSection::successor(&unknown)]);
    chain.extend_proving_sections(&mut msg).unwrap();
    assert_eq!(msg.proving_sections().len(), 1);
    assert_eq!(msg.proving_sections()[0].sec_info, *chain.our_info());

    let mut refused = message(Some(unknown), name(0x3f, 0));
    assert_eq!(
        chain.extend_proving_sections(&mut refused),
        Err(RoutingError::UnknownPrevHop)
    );
}

#[test]
fn candidate_is_tested_and_approved() {
    let mut chain = table();
    let interval = XorTargetInterval(name(0x00, 0), name(0x0f, 0));
    let (old, new) = (id(0x70, 90), id(0x05, 91));
    assert!(!chain.has_resource_proof_candidate());
    assert_eq!(chain.candidate_old_public_id(), None);
    assert_eq!(chain.show_candidate_status("us"), None);
    chain.accept_as_candidate(old, interval);
    assert!(chain.has_resource_proof_candidate());
    assert_eq!(chain.candidate_old_public_id(), Some(&old));
    assert_eq!(chain.matching_candidate_target_interval(&old), Some(&interval));
    assert_eq!(chain.matching_candidate_target_interval(&new), None);
    assert_eq!(
        chain.show_candidate_status("us"),
        Some("us - candidate 700000.. is being tested".to_string())
    );

    let client_auth = Authority::ManagedNode(name(0x70, 90));
    let wrong = OnlinePayload { new_public_id: new, old_public_id: new, client_auth };
    assert!(!chain.try_accept_candidate_as_member(&wrong));
    let right = OnlinePayload { new_public_id: new, old_public_id: old, client_auth };
    assert!(chain.try_accept_candidate_as_member(&right));
    assert!(!chain.try_accept_candidate_as_member(&right));
    assert_eq!(chain.matching_candidate_target_interval(&old), None);
    assert_eq!(
        chain.show_candidate_status("us"),
        Some("us - candidate 050000.. was approved".to_string())
    );

    chain.reset_candidate_if_member_of(&set(&[old]));
    assert!(chain.has_resource_proof_candidate());
    chain.reset_candidate_if_member_of(&set(&[new]));
    assert!(!chain.has_resource_proof_candidate());
    chain.accept_as_candidate(old, interval);
    chain.reset_candidate();
    assert!(!chain.has_resource_proof_candidate());
}

#[test]
fn chain_is_shown_in_full() {
    let first_info = info(&[(0x00, 1)], "00");
    let mut chain = Chain::new(
        1,
        id(0x00, 1),
        GenesisPfxInfo { first_info, latest_info: Default::default() },
    );
    chain.add_section_info(info(&[(0xab, 2)], "10"), votes(&[id(0x00, 1)])).unwrap();
    chain.update_their_knowledge(prefix("10"), 12);
    assert_eq!(
        chain.debug_string(),
        "Chain {\n\
         \tchange: None,\n\
         \tour_id: 000000..,\n\
         \tour_version: 0\n\
         \tis_member: true,\n\
         \tnew_info: SectionInfo(prefix: Prefix(00), version: 0, members: 000000..)\n\
         \tmerging: {}\n\
         \tour_infos: len 1\n\
         \tSectionInfo(prefix: Prefix(00), version: 0, members: 000000..)\n\
         \tneighbour_infos:\n\
         \t Prefix(10) signed by our_version: 0\n\
         \t SectionInfo(prefix: Prefix(10), version: 0, members: ab0000..)\n\
         \ttheir_knowledge: len 1\n\
         \tPrefix(10) knows our_version: 12\n\
         }\n"
    );
    assert_eq!(chain.display_string(), "Node(000000..(00))");
    for digest in [Bytes([5; 32]), Bytes([4; 32])] {
        let theirs = NetworkEvent::NeighbourMerge(digest);
        let vote = Proof { pub_id: id(0x00, 1), sig: Bytes([7; 64]) };
        chain.handle_opaque_event(&theirs, vote).unwrap();
        assert_eq!(chain.poll().unwrap(), Some(theirs));
    }
    assert!(chain.debug_string().contains("\tmerging: {040404.., 050505..}\n"));
}
