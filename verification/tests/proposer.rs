use dag_consensus::collections::{KeyMap, KeySet};
use dag_consensus::committee::{Authority, Committee};
use dag_consensus::crypto::{Digest, PublicKey};
use dag_consensus::messages::{Certificate, ProposalParents};
use dag_consensus::proposer::{
    ProposalDecision, Proposer, RoundClass, StaleWavePolicy, UnlockedRound,
};

const LATER: u128 = 5;
const NEVER: u128 = u128::MAX;

fn name(n: u8) -> PublicKey {
    PublicKey([n; 32])
}

fn digest(n: u8) -> Digest {
    Digest([n; 32])
}

fn committee() -> Committee {
    let mut authorities = KeyMap::new();
    for n in 1..=4u8 {
        let _ = authorities.insert(name(n), Authority { stake: 1, workers: KeySet::new() });
    }
    Committee {
        authorities,
        quorum_threshold: 3,
        validity_threshold: 2,
        solid_step_length: 2,
        solid_wave_length: 4,
    }
}

fn proposer() -> Proposer {
    Proposer::new(name(1), &committee(), 64, 10, 0)
}

/// A proposer that has proposed the first round.
fn running() -> Proposer {
    let mut proposer = proposer();
    assert_eq!(proposer.poll(0, NEVER).unwrap().round, 1);
    proposer
}

fn parents(list: &[u8]) -> ProposalParents {
    let mut update = ProposalParents::from(list.iter().map(|n| digest(*n)).collect());
    update.solid_step_union = KeySet::from_vec(&list.iter().map(|n| digest(n + 100)).collect());
    update.solid_wave_union = KeySet::from_vec(&list.iter().map(|n| digest(n + 150)).collect());
    update
}

#[test]
fn the_first_round_goes_at_once() {
    let mut proposer = proposer();
    proposer.on_digest(digest(1), 0);
    let header = proposer.poll(0, NEVER).unwrap();
    assert_eq!(header.round, 1);
    assert_eq!(header.author, name(1));
    assert!(header.payload.is_empty());
    let genesis: Vec<Digest> =
        Certificate::genesis(&committee()).iter().map(|c| c.digest()).collect();
    let set = KeySet::from_vec(&genesis);
    assert_eq!(header.parents.to_vec(), set.to_vec());
    assert_eq!(header.solid_step_vertices.to_vec(), set.to_vec());
    assert_eq!(header.solid_step_vertices_merged.to_vec(), set.to_vec());
    assert_eq!(header.solid_wave_vertices.to_vec(), set.to_vec());
    assert_eq!(header.solid_wave_vertices_merged.to_vec(), set.to_vec());
    assert_eq!(header.digest(), header.id);
    assert!(proposer.poll(0, NEVER).is_none());
}

#[test]
fn other_rounds_wait_for_payload_or_time() {
    let mut proposer = running();
    proposer.on_parents(1, parents(&[1]), 0);
    assert!(proposer.poll(LATER, NEVER).is_none());
    proposer.on_digest(digest(1), 0);
    assert!(proposer.poll(LATER, NEVER).is_none());
    proposer.on_digest(digest(2), 3);
    let header = proposer.poll(LATER, NEVER).unwrap();
    assert_eq!(header.round, 2);
    assert_eq!(header.payload.get(&digest(2)), Some(&3));
    assert_eq!(header.payload.len(), 2);
    // The payload is used up.
    proposer.on_parents(2, parents(&[2]), 0);
    let header = proposer.poll(LATER, LATER).unwrap();
    assert_eq!(header.round, 3);
    assert!(header.payload.is_empty());
}

#[test]
fn the_last_worker_of_a_batch_counts() {
    let mut proposer = running();
    proposer.on_digest(digest(1), 0);
    proposer.on_digest(digest(1), 5);
    let payload = proposer.take_payload_for_header();
    assert_eq!(payload.len(), 1);
    assert_eq!(payload.get(&digest(1)), Some(&5));
    assert!(proposer.take_payload_for_header().is_empty());
}

#[test]
fn a_critical_round_goes_first_with_payload() {
    for has_payload in [true, false] {
        let mut proposer = running();
        proposer.on_parents(4, parents(&[1]), 0);
        proposer.on_parents(3, parents(&[2]), 0);
        if has_payload {
            proposer.on_digest(digest(1), 0);
        }
        let decision = proposer.next_proposal_round(true, false, LATER).unwrap();
        let expected = ProposalDecision {
            round: if has_payload { 4 } else { 5 },
            include_payload: has_payload,
        };
        assert_eq!(decision, expected);
        assert!(proposer.next_proposal_round(false, false, LATER).is_none());
    }
}

#[test]
fn first_unlocked_is_first_proposed() {
    let mut proposer = running();
    proposer.on_parents(7, parents(&[1]), 0);
    proposer.on_parents(5, parents(&[2]), 0);
    let first = proposer.poll(LATER, 0).unwrap();
    assert_eq!(first.round, 8);
    let second = proposer.poll(LATER, 0).unwrap();
    assert_eq!(second.round, 6);
    assert!(proposer.poll(LATER, 0).is_none());
}

#[test]
fn no_round_is_proposed_twice() {
    let mut proposer = running();
    proposer.on_parents(1, parents(&[1]), 0);
    assert_eq!(proposer.poll(LATER, 0).unwrap().round, 2);
    proposer.on_parents(1, parents(&[2]), 0);
    proposer.on_parents(0, parents(&[2]), 0);
    assert!(proposer.poll(LATER, 0).is_none());
}

#[test]
fn late_parents_join() {
    let mut proposer = running();
    proposer.on_parents(2, parents(&[2, 1]), 0);
    proposer.on_parents(2, parents(&[3, 2]), LATER);
    let header = proposer.poll(LATER, 0).unwrap();
    assert_eq!(header.parents.to_vec(), vec![digest(1), digest(2), digest(3)]);
    assert_eq!(
        header.solid_step_vertices.to_vec(),
        vec![digest(101), digest(102), digest(103)]
    );
}

#[test]
fn rounds_without_parents_wait() {
    let mut proposer = running();
    proposer.on_parents(2, parents(&[]), 0);
    assert!(proposer.poll(LATER, 0).is_none());
    proposer.on_parents(2, parents(&[1]), 0);
    assert_eq!(proposer.poll(LATER, 0).unwrap().round, 3);
}

#[test]
fn headers_hand_on_vertices() {
    let mut proposer = running();
    let mut header_of = |round: u64| {
        let state = UnlockedRound {
            parents: vec![digest(1)],
            solid_step_union: KeySet::from_vec(&vec![digest(101)]),
            solid_wave_union: KeySet::from_vec(&vec![digest(151)]),
            ready_since: 0,
            unlock_order: 9,
        };
        proposer.make_header(round, state, false)
    };
    let inner = header_of(3);
    assert_eq!(inner.solid_step_vertices_merged.to_vec(), vec![digest(101)]);
    assert_eq!(inner.solid_wave_vertices_merged.to_vec(), vec![digest(151)]);
    let step_end = header_of(6);
    assert_eq!(step_end.solid_step_vertices.to_vec(), vec![digest(101)]);
    assert_eq!(step_end.solid_step_vertices_merged.to_vec(), vec![step_end.id]);
    assert_eq!(step_end.solid_wave_vertices_merged.to_vec(), vec![digest(151)]);
    let wave_end = header_of(8);
    assert_eq!(wave_end.solid_wave_vertices.to_vec(), vec![digest(151)]);
    assert_eq!(wave_end.solid_step_vertices_merged.to_vec(), vec![wave_end.id]);
    assert_eq!(wave_end.solid_wave_vertices_merged.to_vec(), vec![wave_end.id]);
}

#[test]
fn rounds_have_a_class() {
    let proposer = proposer();
    assert_eq!(proposer.round_class(1), RoundClass::Bootstrap);
    assert_eq!(proposer.round_class(2), RoundClass::Critical);
    assert_eq!(proposer.round_class(3), RoundClass::Intermediate);
    assert_eq!(proposer.round_class(0), RoundClass::Intermediate);
    assert!(!proposer.is_intermediate_round(0));
    assert_eq!(proposer.next_critical_round(3), Some(4));
    assert_eq!(proposer.next_critical_round(4), None);
    assert_eq!(proposer.next_critical_round(1), None);
    assert_eq!(proposer.wave_of(0), 0);
    assert_eq!(proposer.wave_of(4), 0);
    assert_eq!(proposer.wave_of(5), 1);
}

#[test]
fn ended_steps_leave_no_intermediate_round() {
    let mut proposer = running();
    proposer.on_parents(2, parents(&[1]), 0);
    assert!(!proposer.is_obsolete_intermediate_round(3));
    proposer.on_parents(3, parents(&[2]), 0);
    assert!(proposer.critical_round_started(4));
    assert!(!proposer.critical_round_started(5));
    assert!(proposer.is_obsolete_intermediate_round(3));
    // Round three is gone and does not come back.
    proposer.on_parents(2, parents(&[1]), 0);
    assert_eq!(proposer.poll(LATER, 0).unwrap().round, 4);
    assert!(proposer.poll(LATER, 0).is_none());
}

#[test]
fn stale_waves_keep_the_last_critical_round() {
    let mut proposer = running();
    assert_eq!(proposer.stale_wave_policy(0), StaleWavePolicy::KeepWholeWave);
    proposer.on_parents(1, parents(&[1]), 0);
    proposer.on_parents(3, parents(&[2]), 0);
    assert_eq!(proposer.highest_unlocked_critical_round_in_wave(0), Some(4));
    assert_eq!(proposer.highest_unfinished_critical_round_in_wave(0), Some(4));
    assert_eq!(proposer.highest_unfinished_critical_round_in_wave(1), Some(8));
    assert!(!proposer.wave_has_proposed_critical_round(0));
    assert_eq!(proposer.stale_wave_policy(0), StaleWavePolicy::KeepOnlyRound(4));
    // A later wave makes the first one stale: only its last critical round stays.
    proposer.on_parents(5, parents(&[3]), 0);
    assert_eq!(proposer.poll(LATER, 0).unwrap().round, 4);
    assert_eq!(proposer.poll(LATER, 0).unwrap().round, 6);
    assert!(proposer.poll(LATER, 0).is_none());
    assert!(proposer.wave_has_proposed_critical_round(0));
    assert_eq!(proposer.stale_wave_policy(0), StaleWavePolicy::KeepOnlyRound(2));
    // Parents for another round of the stale wave are refused.
    proposer.on_parents(2, parents(&[4]), 0);
    assert!(proposer.poll(LATER, 0).is_none());
    // The retained round is still welcome.
    proposer.on_parents(1, parents(&[4]), LATER);
    assert_eq!(proposer.poll(2 * LATER, 0).unwrap().round, 2);
    assert_eq!(proposer.stale_wave_policy(0), StaleWavePolicy::DropWholeWave);
    proposer.on_parents(2, parents(&[4]), LATER);
    assert!(proposer.poll(3 * LATER, 0).is_none());
}

#[test]
fn waiting_rounds_set_the_deadline() {
    let mut proposer = proposer();
    assert_eq!(proposer.next_recheck_deadline(500, 7), 7);
    assert!(proposer.poll(7, NEVER).is_some());
    assert_eq!(proposer.next_recheck_deadline(500, 7), 500);
    proposer.on_parents(1, parents(&[1]), 40);
    assert_eq!(proposer.next_recheck_deadline(500, 50), 40);
    assert_eq!(proposer.next_recheck_deadline(NEVER, 50), 40);
    assert_eq!(proposer.next_recheck_deadline(30, 50), 30);
    assert_eq!(proposer.header_deadline(5), 10_000_005);
}

#[test]
fn parents_are_merged_and_counted() {
    let mut list = vec![digest(3), digest(1), digest(1)];
    let counts = Proposer::merge_parents(&mut list, vec![digest(2), digest(3)]);
    assert_eq!(counts, (3, 3));
    assert_eq!(list, vec![digest(1), digest(2), digest(3)]);
    let mut state = UnlockedRound {
        parents: vec![digest(1)],
        solid_step_union: KeySet::from_vec(&vec![digest(101)]),
        solid_wave_union: KeySet::new(),
        ready_since: 0,
        unlock_order: 0,
    };
    assert_eq!(Proposer::merge_unlocked_round(&mut state, parents(&[1, 2])), (1, 2));
}

#[test]
fn stale_rounds_are_dropped_once() {
    let mut proposer = running();
    proposer.on_parents(2, parents(&[1]), 0);
    proposer.on_parents(3, parents(&[2]), 0);
    proposer.on_parents(4, parents(&[3]), 0);
    proposer.drop_stale_wave_rounds();
    proposer.drop_stale_wave_rounds();
    assert_eq!(proposer.highest_unlocked_critical_round_in_wave(0), Some(4));
    assert_eq!(proposer.poll(LATER, 0).unwrap().round, 5);
    assert_eq!(proposer.poll(LATER, 0).unwrap().round, 4);
    assert!(proposer.poll(LATER, 0).is_none());
}

#[test]
fn counters_have_room_at_first() {
    let proposer = proposer();
    assert!(proposer.can_unlock());
    assert!(proposer.can_take_digest());
}

#[test]
fn an_unlocked_round_does_not_wait_for_late_parents() {
    let mut proposer = running();
    proposer.on_parents(1, parents(&[1]), 40);
    assert_eq!(proposer.poll(40, 40).unwrap().round, 2);
    proposer.on_parents(2, parents(&[2]), 40);
    proposer.on_digest(digest(1), 0);
    proposer.on_digest(digest(2), 0);
    assert_eq!(proposer.poll(40, NEVER).unwrap().round, 3);
}

#[test]
fn the_first_header_hands_on_the_genesis() {
    // One round makes a step and a wave, so that every later round ends both.
    let mut committee = committee();
    committee.solid_step_length = 1;
    committee.solid_wave_length = 1;
    let mut proposer = Proposer::new(name(2), &committee, 64, 10, 0);
    let header = proposer.poll(0, NEVER).unwrap();
    let genesis: Vec<Digest> =
        Certificate::genesis(&committee).iter().map(|c| c.digest()).collect();
    let set = KeySet::from_vec(&genesis);
    assert_eq!(header.parents.to_vec(), set.to_vec());
    assert_eq!(header.solid_step_vertices_merged.to_vec(), set.to_vec());
    assert_eq!(header.solid_wave_vertices_merged.to_vec(), set.to_vec());
    let state = UnlockedRound {
        parents: vec![digest(1)],
        solid_step_union: KeySet::from_vec(&vec![digest(101)]),
        solid_wave_union: KeySet::from_vec(&vec![digest(151)]),
        ready_since: 0,
        unlock_order: 9,
    };
    let header = proposer.make_header(1, state, false);
    assert_eq!(header.solid_wave_vertices.to_vec(), vec![digest(1)]);
    assert_eq!(header.solid_wave_vertices_merged.to_vec(), vec![digest(1)]);
}

#[test]
fn a_critical_round_leaves_only_later_intermediate_rounds() {
    let mut proposer = running();
    for round in [2, 4, 6] {
        proposer.on_parents(round, parents(&[1]), 0);
    }
    // Round six ends the step of round five; round seven stays.
    proposer.on_parents(5, parents(&[2]), 0);
    assert!(proposer.is_obsolete_intermediate_round(5));
    assert!(!proposer.is_obsolete_intermediate_round(7));
    proposer.on_parents(4, parents(&[3]), 0);
    let mut rounds = Vec::new();
    while let Some(header) = proposer.poll(LATER, 0) {
        rounds.push(header.round);
    }
    assert_eq!(rounds, vec![7, 6]);
}
