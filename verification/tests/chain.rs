//! Sections, events, splits and merges.

use rand::{thread_rng, Rng};
use routing::chain::Chain;
use routing::codes::Bytes;
use routing::error::RoutingError;
use routing::id::PublicId;
use routing::network_event::NetworkEvent;
use routing::order::{Checked, Coded};
use routing::ordered::OrderedSet;
use routing::prefix::Prefix;
use routing::proof_set::{Proof, ProofSet};
use routing::section_info::{GenesisPfxInfo, SectionInfo, SECTION_INFO_TAG};
use routing::shared_state::PrefixChange;
use routing::xor_name::XorName;
use sodiumoxide::crypto::sign;
use std::collections::HashMap;

const MIN_SECTION_SIZE: usize = 3;

#[derive(Clone)]
struct FullId {
    public_id: PublicId,
    secret_key: sign::SecretKey,
}

impl FullId {
    fn within(prefix: &Prefix) -> FullId {
        let (public_key, secret_key) = sign::gen_keypair();
        let mut rng = thread_rng();
        let mut bytes = [0u8; 32];
        for byte in bytes.iter_mut() {
            *byte = rng.gen();
        }
        let mut name = XorName(bytes);
        for i in 0..prefix.bit_count() {
            name = name.with_bit(i, prefix.bit(i));
        }
        let public_id = PublicId::new(name, Bytes(public_key.0), Bytes([0; 32]));
        FullId { public_id, secret_key }
    }

    fn sign(&self, info: &SectionInfo) -> Proof {
        let mut message = vec![SECTION_INFO_TAG];
        info.write(&mut message);
        let sig = sign::sign_detached(&message, &self.secret_key);
        let mut bytes = [0u8; 64];
        bytes.copy_from_slice(sig.as_ref());
        Proof { pub_id: self.public_id, sig: Bytes(bytes) }
    }
}

enum SecInfoGen<'a> {
    New(Prefix, usize),
    Add(&'a SectionInfo),
    Remove(&'a SectionInfo),
}

fn gen_section_info(gen: SecInfoGen) -> (SectionInfo, HashMap<PublicId, FullId>) {
    match gen {
        SecInfoGen::New(pfx, n) => {
            let mut full_ids = HashMap::new();
            let mut members = OrderedSet::new();
            for _ in 0..n {
                let some_id = FullId::within(&pfx);
                let _ = members.insert(some_id.public_id);
                let _ = full_ids.insert(some_id.public_id, some_id);
            }
            (SectionInfo::new(members, pfx, None), full_ids)
        }
        SecInfoGen::Add(info) => {
            let mut members = info.members().duplicate();
            let some_id = FullId::within(info.prefix());
            let _ = members.insert(some_id.public_id);
            let mut full_ids = HashMap::new();
            let _ = full_ids.insert(some_id.public_id, some_id);
            (SectionInfo::new(members, *info.prefix(), Some(info)), full_ids)
        }
        SecInfoGen::Remove(info) => {
            let members = info.members().duplicate();
            (SectionInfo::new(members, *info.prefix(), Some(info)), Default::default())
        }
    }
}

fn gen_proofs(
    full_ids: &HashMap<PublicId, FullId>,
    members: &OrderedSet<PublicId>,
    payload: &SectionInfo,
) -> ProofSet {
    let mut proofs = ProofSet::new();
    for i in 0..members.len() {
        if let Some(full_id) = full_ids.get(members.at(i)) {
            let _ = proofs.add_proof(full_id.sign(payload));
        }
    }
    proofs
}

fn gen_chain(
    min_sec_size: usize,
    sections: Vec<(Prefix, usize)>,
) -> (Chain, HashMap<PublicId, FullId>) {
    let mut full_ids = HashMap::new();
    let mut our_id: Option<FullId> = None;
    let mut section_members = vec![];
    for (pfx, size) in sections {
        let (info, ids) = gen_section_info(SecInfoGen::New(pfx, size));
        if our_id.is_none() {
            our_id = ids.values().next().cloned();
        }
        full_ids.extend(ids);
        section_members.push(info);
    }

    let our_id = our_id.expect("our id");
    let mut sections_iter = section_members.into_iter();

    let first_info = sections_iter.next().expect("section members");
    let our_members = first_info.members().duplicate();
    let genesis_info = GenesisPfxInfo { first_info, latest_info: Default::default() };

    let mut chain = Chain::new(min_sec_size, our_id.public_id, genesis_info);

    for neighbour_info in sections_iter {
        let proofs = gen_proofs(&full_ids, &our_members, &neighbour_info);
        chain.add_section_info(neighbour_info, proofs).expect("add section info");
    }

    (chain, full_ids)
}

#[test]
fn generate_chain() {
    let _ = sodiumoxide::init();
    let (chain, _ids) = gen_chain(
        MIN_SECTION_SIZE,
        vec![
            (Prefix::from_str("00").unwrap(), 8),
            (Prefix::from_str("01").unwrap(), 8),
            (Prefix::from_str("10").unwrap(), 8),
        ],
    );
    assert!(!chain
        .get_section(&Prefix::from_str("00").unwrap())
        .expect("No section 00 found!")
        .members()
        .is_empty());
    assert!(chain.get_section(&Prefix::from_str("").unwrap()).is_none());
}

fn check_infos_for_duplication(chain: &Chain) {
    let mut prefixes: Vec<Prefix> = vec![];
    for info in chain.neighbour_infos() {
        if let Some(pfx) = prefixes.iter().find(|x| x.is_compatible(info.prefix())) {
            panic!("Found compatible prefixes! {:?} and {:?}", pfx, info.prefix());
        }
        prefixes.push(*info.prefix());
    }
}

#[test]
fn neighbour_info_cleaning() {
    let _ = sodiumoxide::init();
    let mut rng = thread_rng();
    let p_00 = Prefix::from_str("00").unwrap();
    let p_01 = Prefix::from_str("01").unwrap();
    let p_10 = Prefix::from_str("10").unwrap();
    let (mut chain, mut full_ids) =
        gen_chain(MIN_SECTION_SIZE, vec![(p_00, 8), (p_01, 8), (p_10, 8)]);
    for _ in 0..1000 {
        let (new_info, new_ids) = {
            let old_info: Vec<_> = chain.neighbour_infos();
            let info = rng.choose(&old_info).expect("neighbour infos");
            if rng.gen_weighted_bool(2) {
                gen_section_info(SecInfoGen::Add(info))
            } else {
                gen_section_info(SecInfoGen::Remove(info))
            }
        };
        full_ids.extend(new_ids);
        let proofs = gen_proofs(&full_ids, chain.our_info().members(), &new_info);
        chain.add_section_info(new_info, proofs).unwrap();
        check_infos_for_duplication(&chain);
    }
}

fn prefix(s: &str) -> Prefix {
    Prefix::from_str(s).unwrap()
}

/// The identity whose name starts with the given byte and ends with the other one.
fn id(first: u8, last: u8) -> PublicId {
    let mut bytes = [0u8; 32];
    bytes[0] = first;
    bytes[31] = last;
    PublicId::new(XorName(bytes), Bytes([last; 32]), Bytes([first; 32]))
}

fn set(ids: &[PublicId]) -> OrderedSet<PublicId> {
    let mut r = OrderedSet::new();
    for id in ids {
        let _ = r.insert(*id);
    }
    r
}

fn vote(id: PublicId) -> Proof {
    Proof { pub_id: id, sig: Bytes([7; 64]) }
}

fn votes(ids: &[PublicId]) -> ProofSet {
    let mut r = ProofSet::new();
    for id in ids {
        let _ = r.add_proof(vote(*id));
    }
    r
}

/// A chain whose section has the given prefix and members, the first of which we are.
fn chain_of(min_sec_size: usize, pfx: &str, ids: &[PublicId]) -> Chain {
    let first_info = SectionInfo::new(set(ids), prefix(pfx), None);
    Chain::new(
        min_sec_size,
        ids[0],
        GenesisPfxInfo { first_info, latest_info: Default::default() },
    )
}

/// Votes for an event with all of the given identities.
fn vote_all(chain: &mut Chain, event: &NetworkEvent, ids: &[PublicId]) {
    for id in ids {
        chain.handle_opaque_event(event, vote(*id)).unwrap();
    }
}

#[test]
fn new_chain_knows_its_section() {
    let ids = [id(0x00, 1), id(0x10, 2), id(0x20, 3)];
    let chain = chain_of(3, "0", &ids);
    assert_eq!(chain.min_sec_size(), 3);
    assert_eq!(chain.min_split_size(), 4);
    assert_eq!(chain.our_id(), &ids[0]);
    assert_eq!(chain.our_info().members(), &set(&ids));
    assert_eq!(chain.our_info().version(), 0);
    assert_eq!(chain.our_prefix(), &prefix("0"));
    assert_eq!(chain.prefix_change(), PrefixChange::Stable);
    assert!(chain.is_member());
    assert!(chain.neighbour_infos().is_empty());
    assert_eq!(chain.len(), 2);
    assert_eq!(chain.our_info_by_hash(chain.our_info().hash()), Some(chain.our_info()));
    assert_eq!(chain.our_info_by_hash(&Bytes([0; 32])), None);
    assert!(!chain.is_self_merge_ready());
}

#[test]
fn stranger_becomes_a_member_with_a_section_that_names_it() {
    let ids = [id(0x00, 1), id(0x10, 2), id(0x20, 3)];
    let us = id(0x30, 9);
    let first_info = SectionInfo::new(set(&ids), prefix("0"), None);
    let mut members = set(&ids);
    let _ = members.insert(us);
    let next = SectionInfo::new(members, prefix("0"), Some(&first_info));
    let mut chain = Chain::new(
        3,
        us,
        GenesisPfxInfo { first_info, latest_info: Default::default() },
    );
    assert!(!chain.is_member());
    chain.add_section_info(next.clone(), votes(&ids)).unwrap();
    assert!(chain.is_member());
    assert_eq!(chain.our_info(), &next);
}

#[test]
fn churn_events_take_effect_once() {
    let ids = [id(0x00, 1), id(0x10, 2), id(0x20, 3)];
    let mut chain = chain_of(3, "0", &ids);
    let event = NetworkEvent::RemoveElder(ids[2]);
    chain.handle_churn_event(&event, votes(&ids[..2])).unwrap();
    assert_eq!(chain.poll().unwrap(), Some(event.clone()));
    assert_eq!(chain.poll().unwrap(), None);
    chain.handle_churn_event(&event, votes(&ids)).unwrap();
    assert_eq!(chain.poll().unwrap(), None);
}

#[test]
fn churn_event_of_another_sort_is_refused() {
    let ids = [id(0x00, 1), id(0x10, 2), id(0x20, 3)];
    let mut chain = chain_of(3, "0", &ids);
    assert_eq!(
        chain.handle_churn_event(&NetworkEvent::Offline(ids[2]), votes(&ids)),
        Err(RoutingError::InvalidStateForOperation)
    );
    assert_eq!(chain.poll().unwrap(), None);
}

#[test]
fn event_needs_votes_of_more_than_half() {
    let ids = [id(0x00, 1), id(0x10, 2), id(0x20, 3), id(0x30, 4)];
    let mut chain = chain_of(3, "0", &ids);
    let event = NetworkEvent::Offline(ids[3]);
    vote_all(&mut chain, &event, &ids[..2]);
    assert_eq!(chain.poll().unwrap(), None);
    // The same vote again and a vote of a stranger do not count.
    vote_all(&mut chain, &event, &[ids[1], id(0x40, 9)]);
    assert_eq!(chain.poll().unwrap(), None);
    vote_all(&mut chain, &event, &ids[2..3]);
    assert_eq!(chain.poll().unwrap(), Some(event));
}

#[test]
fn first_event_that_is_due_takes_effect() {
    let ids = [id(0x00, 1), id(0x10, 2), id(0x20, 3)];
    let mut chain = chain_of(3, "0", &ids);
    let later = NetworkEvent::PurgeCandidate(ids[2]);
    let sooner = NetworkEvent::Offline(ids[2]);
    vote_all(&mut chain, &later, &ids);
    vote_all(&mut chain, &sooner, &ids);
    assert_eq!(chain.poll().unwrap(), Some(sooner));
    assert_eq!(chain.poll().unwrap(), Some(later));
    assert_eq!(chain.poll().unwrap(), None);
}

#[test]
fn own_sections_follow_each_other() {
    let ids = [id(0x00, 1), id(0x10, 2), id(0x20, 3)];
    let mut chain = chain_of(1, "0", &ids);
    let skipped = chain.remove_member(ids[2]).unwrap();
    let next = chain.remove_member(ids[1]).unwrap();
    assert_eq!(next.version(), 2);
    vote_all(&mut chain, &NetworkEvent::SectionInfo(next.clone()), &ids);
    assert_eq!(chain.poll().unwrap(), None);
    vote_all(&mut chain, &NetworkEvent::SectionInfo(skipped.clone()), &ids);
    assert_eq!(chain.poll().unwrap(), Some(NetworkEvent::SectionInfo(skipped.clone())));
    assert_eq!(chain.our_info(), &skipped);
    assert_eq!(chain.poll().unwrap(), Some(NetworkEvent::SectionInfo(next.clone())));
    assert_eq!(chain.our_info(), &next);
    assert_eq!(chain.poll().unwrap(), None);
}

#[test]
fn neighbour_without_quorum_is_refused() {
    let ids = [id(0x00, 1), id(0x10, 2), id(0x20, 3)];
    let mut chain = chain_of(3, "0", &ids);
    let neighbour = SectionInfo::new(set(&[id(0x80, 5)]), prefix("1"), None);
    assert_eq!(
        chain.add_section_info(neighbour.clone(), votes(&ids[..1])),
        Err(RoutingError::InvalidMessage)
    );
    assert!(chain.get_section(&prefix("1")).is_none());
    assert_eq!(chain.add_section_info(neighbour.clone(), votes(&ids[..2])), Ok(()));
    assert_eq!(chain.get_section(&prefix("1")), Some(&neighbour));
}

#[test]
fn section_that_is_no_neighbour_is_purged() {
    let ids = [id(0x00, 1), id(0x10, 2), id(0x20, 3)];
    let mut chain = chain_of(3, "00", &ids);
    let opposite = SectionInfo::new(set(&[id(0xc0, 5)]), prefix("11"), None);
    assert_eq!(chain.add_section_info(opposite, votes(&ids)), Ok(()));
    assert!(chain.neighbour_infos().is_empty());
}

#[test]
fn half_of_a_neighbour_leaves_the_other_half() {
    let ids = [id(0x00, 1), id(0x10, 2), id(0x20, 3)];
    let mut chain = chain_of(3, "0", &ids);
    let whole = SectionInfo::new(set(&[id(0x80, 5), id(0xc0, 6)]), prefix("1"), None);
    let half = SectionInfo::new(set(&[id(0x80, 5)]), prefix("10"), Some(&whole));
    chain.add_section_info(whole.clone(), votes(&ids)).unwrap();
    chain.add_section_info(half.clone(), votes(&ids)).unwrap();
    assert!(chain.get_section(&prefix("1")).is_none());
    assert_eq!(chain.get_section(&prefix("10")), Some(&half));
    assert_eq!(chain.get_section(&prefix("11")), Some(&whole));
    // A newer whole takes the place of both.
    let merged = half.merge(&whole);
    chain.add_section_info(SectionInfo::new(set(&[id(0x80, 5)]), prefix("1"), Some(&merged)),
        votes(&ids)).unwrap();
    assert_eq!(chain.neighbour_infos().len(), 1);
    assert_eq!(chain.other_prefixes().len(), 1);
}

#[test]
fn extra_vote_moves_neighbour_on_to_newer_section() {
    let ids = [id(0x00, 1), id(0x10, 2), id(0x20, 3)];
    let mut chain = chain_of(1, "0", &ids);
    let neighbour = SectionInfo::new(set(&[id(0x80, 5)]), prefix("1"), None);
    chain.add_section_info(neighbour.clone(), votes(&ids[..2])).unwrap();
    let next = chain.remove_member(ids[0]).unwrap();
    chain.add_section_info(next, votes(&ids)).unwrap();
    assert!(chain.debug_string().contains("signed by our_version: 0"));
    let event = NetworkEvent::SectionInfo(neighbour);
    chain.handle_opaque_event(&event, vote(ids[2])).unwrap();
    assert!(chain.debug_string().contains("signed by our_version: 1"));
    assert_eq!(chain.poll().unwrap(), None);
}

#[test]
fn members_come_and_go() {
    let ids = [id(0x00, 1), id(0x10, 2), id(0x20, 3)];
    let mut chain = chain_of(3, "0", &ids);
    let added = chain.add_member(id(0x30, 4)).unwrap();
    assert_eq!(added.len(), 1);
    assert_eq!(added[0].members().len(), 4);
    assert_eq!(added[0].version(), 1);
    assert!(added[0].is_successor_of(chain.our_info()));
    let removed = chain.remove_member(id(0x30, 4)).unwrap();
    assert_eq!(removed.members(), &set(&ids));
    assert_eq!(removed.prefix(), added[0].prefix());
    assert_eq!(removed.version(), 2);
    assert!(removed.is_successor_of(&added[0]));
    assert_eq!(chain.prefix_change(), PrefixChange::Stable);
    let _ = chain.remove_member(ids[2]).unwrap();
    assert_eq!(chain.prefix_change(), PrefixChange::Merging);
}

#[test]
fn section_splits_when_both_halves_are_large_enough() {
    let ids = [id(0x00, 1), id(0x10, 2), id(0x80, 3)];
    let mut chain = chain_of(1, "", &ids);
    let infos = chain.add_member(id(0x90, 4)).unwrap();
    assert_eq!(infos.len(), 2);
    assert_eq!(infos[0].prefix(), &prefix("0"));
    assert_eq!(infos[0].members(), &set(&[ids[0], ids[1]]));
    assert_eq!(infos[1].prefix(), &prefix("1"));
    assert_eq!(infos[1].members(), &set(&[ids[2], id(0x90, 4)]));
    assert_eq!(chain.prefix_change(), PrefixChange::Splitting);

    // Merging the halves gives back the members and the prefix.
    let merged = infos[0].merge(&infos[1]);
    assert_eq!(merged.prefix(), &prefix(""));
    assert_eq!(merged.members().len(), 4);
    assert!(merged.is_successor_of(&infos[0]) && merged.is_successor_of(&infos[1]));
}

#[test]
fn section_does_not_split_too_early() {
    let ids = [id(0x00, 1), id(0x10, 2), id(0x80, 3)];
    let mut chain = chain_of(2, "", &ids);
    assert_eq!(chain.add_member(id(0x90, 4)).unwrap().len(), 1);
    assert_eq!(chain.add_member(id(0x91, 5)).unwrap().len(), 1);
    assert_eq!(chain.add_member(id(0x01, 6)).unwrap().len(), 2);
}

#[test]
fn halves_of_a_split_take_effect_together() {
    let ids = [id(0x00, 1), id(0x10, 2), id(0x80, 3)];
    let mut chain = chain_of(1, "", &ids);
    let infos = chain.add_member(id(0x90, 4)).unwrap();
    let ours = NetworkEvent::SectionInfo(infos[0].clone());
    let other = NetworkEvent::SectionInfo(infos[1].clone());
    // The halves follow the section with the new member, which has to take effect first.
    let grown = SectionInfo::new(set(&ids), prefix(""), None);
    assert!(infos[0].is_successor_of(&grown));

    // Events about the membership have to wait.
    let waiting = NetworkEvent::RemoveElder(ids[1]);
    chain.handle_churn_event(&waiting, votes(&ids)).unwrap();
    assert_eq!(chain.poll().unwrap(), None);

    vote_all(&mut chain, &other, &ids);
    assert_eq!(chain.poll().unwrap(), None);
    assert_eq!(chain.our_prefix(), &prefix(""));
    vote_all(&mut chain, &ours, &ids);
    assert_eq!(chain.poll().unwrap(), Some(ours.clone()));
    assert_eq!(chain.our_prefix(), &prefix("0"));
    assert_eq!(chain.get_section(&prefix("1")), Some(&infos[1]));

    let outcome = chain.finalise_prefix_change().unwrap();
    assert_eq!(outcome.gen_pfx_info.first_info, infos[0]);
    assert_eq!(outcome.gen_pfx_info.latest_info, SectionInfo::default());
    assert_eq!(outcome.cached_events.len(), 1);
    assert!(outcome.cached_events.contains(&waiting));
    assert_eq!(outcome.completed_events.len(), 2);
    assert!(outcome.completed_events.contains(&ours));
    assert_eq!(chain.prefix_change(), PrefixChange::Stable);
    chain.handle_churn_event(&waiting, votes(&ids)).unwrap();
    assert_eq!(chain.poll().unwrap(), Some(waiting));
}

#[test]
fn siblings_merge_when_both_are_ready() {
    let ids = [id(0x00, 1), id(0x10, 2), id(0x20, 3)];
    let mut chain = chain_of(3, "0", &ids);
    assert_eq!(chain.try_merge(), Ok(None));
    let sibling = SectionInfo::new(set(&[id(0x80, 5), id(0x90, 6)]), prefix("1"), None);
    chain.add_section_info(sibling.clone(), votes(&ids)).unwrap();
    assert!(chain.should_vote_for_merge());
    assert_eq!(chain.try_merge(), Ok(None));

    vote_all(&mut chain, &NetworkEvent::OurMerge, &ids);
    assert_eq!(chain.poll().unwrap(), Some(NetworkEvent::OurMerge));
    assert!(chain.is_self_merge_ready());
    assert_eq!(chain.prefix_change(), PrefixChange::Merging);
    assert_eq!(chain.try_merge(), Ok(None));

    let theirs = NetworkEvent::NeighbourMerge(*sibling.hash());
    vote_all(&mut chain, &theirs, &ids);
    assert_eq!(chain.poll().unwrap(), Some(theirs));
    let expected = chain.our_info().merge(&sibling);
    let merged = chain.try_merge().unwrap().expect("merged section");
    assert_eq!(merged, expected);
    assert_eq!(merged.members().len(), 5);
    assert_eq!(merged.prefix(), &prefix(""));
    assert_eq!(chain.try_merge(), Ok(None));
}

#[test]
fn merge_is_agreed_on_before_the_newest_section_is_confirmed() {
    let ids = [id(0x00, 1), id(0x10, 2), id(0x20, 3)];
    let mut chain = chain_of(3, "0", &ids);
    let next = chain.remove_member(ids[2]).unwrap();
    assert_ne!(&next, chain.our_info());
    vote_all(&mut chain, &NetworkEvent::OurMerge, &ids);
    assert!(!chain.is_self_merge_ready());
    assert_eq!(chain.poll().unwrap(), Some(NetworkEvent::OurMerge));
    assert!(chain.is_self_merge_ready());
    chain.add_section_info(next, votes(&ids)).unwrap();
    assert!(chain.is_self_merge_ready());
}

#[test]
fn overlapping_neighbours_do_not_stay() {
    let ids = [id(0x00, 1), id(0x10, 2), id(0x20, 3)];
    let mut chain = chain_of(3, "0", &ids);
    let oldest = SectionInfo::new(set(&[id(0x80, 5), id(0xc0, 6)]), prefix("1"), None);
    let newer = SectionInfo::new(set(&[id(0x80, 5)]), prefix("10"), Some(&oldest));
    chain.add_section_info(newer.clone(), votes(&ids)).unwrap();
    // What comes in is older than what it overlaps with.
    chain.add_section_info(oldest, votes(&ids)).unwrap();
    assert_eq!(chain.get_section(&prefix("1")), None);
    assert_eq!(chain.get_section(&prefix("10")), Some(&newer));
    // What comes in is newer.
    let newest = SectionInfo::new(set(&[id(0x80, 5)]), prefix("1"), Some(&newer));
    chain.add_section_info(newest.clone(), votes(&ids)).unwrap();
    assert_eq!(chain.get_section(&prefix("1")), Some(&newest));
    assert_eq!(chain.get_section(&prefix("10")), None);
    assert_eq!(chain.other_prefixes().len(), 1);
}

#[test]
fn section_with_enough_members_does_not_merge() {
    let ids = [id(0x00, 1), id(0x10, 2), id(0x20, 3)];
    let mut chain = chain_of(3, "0", &ids);
    assert!(!chain.should_vote_for_merge());
    let neighbours = [id(0x80, 5), id(0x90, 6), id(0xa0, 7)];
    let sibling = SectionInfo::new(set(&neighbours), prefix("1"), None);
    chain.add_section_info(sibling, votes(&ids)).unwrap();
    assert!(!chain.should_vote_for_merge());
    assert!(chain_of(4, "0", &ids).should_vote_for_merge());
    assert!(!chain_of(4, "", &ids).should_vote_for_merge());
}

#[test]
fn pending_merges_are_voted_for_again() {
    let ids = [id(0x00, 1), id(0x10, 2), id(0x20, 3)];
    let mut chain = chain_of(3, "0", &ids);
    let digest = Bytes([5; 32]);
    let theirs = NetworkEvent::NeighbourMerge(digest);
    vote_all(&mut chain, &theirs, &ids);
    assert_eq!(chain.poll().unwrap(), Some(theirs.clone()));
    // Signed by us but not by enough others.
    let ours = NetworkEvent::Offline(ids[1]);
    chain.handle_opaque_event(&ours, vote(ids[0])).unwrap();
    // Not signed by us.
    chain.handle_opaque_event(&NetworkEvent::Offline(ids[2]), vote(ids[1])).unwrap();
    let outcome = chain.finalise_prefix_change().unwrap();
    assert_eq!(outcome.cached_events.len(), 2);
    assert!(outcome.cached_events.contains(&theirs));
    assert!(outcome.cached_events.contains(&ours));
    assert_eq!(outcome.completed_events.len(), 1);
}

#[test]
fn old_sections_that_nobody_needs_are_forgotten() {
    let ids = [id(0x00, 1), id(0x10, 2), id(0x20, 3)];
    let mut chain = chain_of(1, "0", &ids);
    let first_hash = *chain.our_info().hash();
    for _ in 0..3 {
        let next = chain.remove_member(id(0x70, 9)).unwrap();
        chain.add_section_info(next, votes(&ids)).unwrap();
    }
    chain.update_their_knowledge(prefix("1"), 2);
    chain.update_their_knowledge(prefix("10"), 3);
    assert!(chain.our_info_by_hash(&first_hash).is_some());
    let _ = chain.finalise_prefix_change().unwrap();
    assert!(chain.our_info_by_hash(&first_hash).is_none());
    assert!(chain.debug_string().contains("our_infos: len 2"));
    assert_eq!(chain.our_info().version(), 3);
}

#[test]
fn signatures_prove_a_successor() {
    let _ = sodiumoxide::init();
    let p_0 = prefix("0");
    let p_1 = prefix("1");
    let (chain, ids) = gen_chain(MIN_SECTION_SIZE, vec![(p_0, 4), (p_1, 4)]);
    let known = chain.get_section(&p_1).unwrap().clone();
    let (next, _) = gen_section_info(SecInfoGen::Add(&known));
    let proofs = gen_proofs(&ids, known.members(), &next);
    assert!(chain.is_valid_neighbour_info(&known, &ProofSet::new()));
    assert!(chain.is_valid_neighbour_info(&next, &proofs));
    // Too few signatures, those of others, and spoiled ones prove nothing.
    assert!(!chain.is_valid_neighbour_info(&next, &ProofSet::new()));
    let others = gen_proofs(&ids, chain.our_info().members(), &next);
    assert!(!chain.is_valid_neighbour_info(&next, &others));
    let mut spoiled = ProofSet::new();
    for i in 0..known.members().len() {
        let mut proof = ids[known.members().at(i)].sign(&next);
        proof.sig.0[i] ^= 1;
        let _ = spoiled.add_proof(proof);
    }
    assert!(!chain.is_valid_neighbour_info(&next, &spoiled));
    let wrong = gen_proofs(&ids, known.members(), &known);
    assert!(!chain.is_valid_neighbour_info(&next, &wrong));
}

#[test]
fn section_that_we_have_signed_proves_a_successor() {
    let _ = sodiumoxide::init();
    let p_0 = prefix("0");
    let (mut chain, _) = gen_chain(MIN_SECTION_SIZE, vec![(p_0, 4)]);
    let (neighbour, ids) = gen_section_info(SecInfoGen::New(prefix("1"), 4));
    let (next, _) = gen_section_info(SecInfoGen::Add(&neighbour));
    let proofs = gen_proofs(&ids, neighbour.members(), &next);
    assert!(!chain.is_valid_neighbour_info(&next, &proofs));
    let us = *chain.our_id();
    chain.handle_opaque_event(&NetworkEvent::SectionInfo(neighbour), vote(us)).unwrap();
    assert!(chain.is_valid_neighbour_info(&next, &proofs));
}

#[test]
fn merged_section_has_no_sibling() {
    let ids = [id(0x00, 1), id(0x10, 2), id(0x20, 3)];
    let mut chain = chain_of(3, "0", &ids);
    let sibling = SectionInfo::new(set(&[id(0x80, 5), id(0x90, 6)]), prefix("1"), None);
    chain.add_section_info(sibling.clone(), votes(&ids)).unwrap();
    assert_eq!(chain.get_section(&prefix("1")), Some(&sibling));
    let merged = chain.our_info().merge(&sibling);
    let event = NetworkEvent::SectionInfo(merged.clone());
    vote_all(&mut chain, &event, &ids);
    assert_eq!(chain.poll().unwrap(), Some(event));
    assert_eq!(chain.our_info(), &merged);
    assert_eq!(chain.our_prefix(), &prefix(""));
    assert!(chain.get_section(&prefix("1")).is_none());
    assert!(chain.neighbour_infos().is_empty());
}

#[test]
fn events_that_have_to_wait_are_kept_only_if_they_are_ours() {
    let ids = [id(0x00, 1), id(0x10, 2), id(0x20, 3)];
    let mut chain = chain_of(3, "0", &ids);
    let _ = chain.remove_member(ids[2]).unwrap();
    assert_eq!(chain.prefix_change(), PrefixChange::Merging);
    let ours = NetworkEvent::Offline(ids[1]);
    let theirs = NetworkEvent::Offline(ids[0]);
    chain.handle_opaque_event(&ours, vote(ids[0])).unwrap();
    chain.handle_opaque_event(&theirs, vote(ids[1])).unwrap();
    assert_eq!(chain.poll().unwrap(), None);
    let outcome = chain.finalise_prefix_change().unwrap();
    assert_eq!(outcome.cached_events.len(), 1);
    assert!(outcome.cached_events.contains(&ours));
    assert!(outcome.completed_events.is_empty());
}
