use dag_consensus::collections::{KeyMap, KeySet};
use dag_consensus::committee::{Authority, Committee};
use dag_consensus::consensus::{Consensus, Destination};
use dag_consensus::crypto::{Digest, PublicKey};
use dag_consensus::dag::{CommitStatus, State};
use dag_consensus::messages::{Certificate, Header};
use dag_consensus::traversal::{find_parent_certificate, linked};

fn name(n: u8) -> PublicKey {
    PublicKey([n; 32])
}

fn committee(validity_threshold: u32) -> Committee {
    let mut authorities = KeyMap::new();
    for n in 1..=4u8 {
        let _ = authorities.insert(name(n), Authority { stake: 1, workers: KeySet::new() });
    }
    Committee {
        authorities,
        quorum_threshold: 3,
        validity_threshold,
        solid_step_length: 1,
        solid_wave_length: 2,
    }
}

fn certificate(author: u8, round: u64, parents: &[&Certificate]) -> Certificate {
    let digests: Vec<Digest> = parents.iter().map(|c| c.digest()).collect();
    let header = Header::new(name(author), round, KeyMap::new(), KeySet::from_vec(&digests));
    Certificate { header, votes: Vec::new() }
}

fn supporting(author: u8, round: u64, parents: &[&Certificate], supported: &[&Certificate]) -> Certificate {
    let mut c = certificate(author, round, parents);
    let ids: Vec<Digest> = supported.iter().map(|c| c.header.id).collect();
    c.header.store_solid_step_vertex(KeySet::from_vec(&ids));
    c
}

fn start(validity_threshold: u32, gc_depth: u64) -> (Consensus, State, Vec<Certificate>) {
    let committee = committee(validity_threshold);
    let genesis = Certificate::genesis(&committee);
    let state = State::new(genesis.clone());
    (Consensus::new(committee, gc_depth), state, genesis)
}

fn places(certificates: &[Certificate]) -> Vec<(u64, u8)> {
    certificates.iter().map(|c| (c.round(), c.origin().0[0])).collect()
}

fn status(state: &State, round: u64, author: u8) -> CommitStatus {
    state.entry(round, &name(author)).unwrap().status
}

#[test]
fn inserted_certificates_are_found() {
    let (_, mut state, _) = start(2, 10);
    let c = certificate(1, 1, &[]);
    state.insert(c.clone());
    let entry = state.find_certificate(&c.digest()).unwrap();
    assert!(entry.certificate == c);
    assert_eq!(entry.digest, c.digest());
    assert_eq!(entry.status, CommitStatus::Pending);
    assert_eq!(state.find_digest(&c.digest()).unwrap().round, 1);
    assert_eq!(state.find_digest(&c.header.id).unwrap().author, name(1));
    assert!(state.find_certificate(&c.header.id).is_none());
    assert!(state.find_digest(&Digest([9; 32])).is_none());
}

#[test]
fn another_certificate_takes_the_place() {
    let (_, mut state, genesis) = start(2, 10);
    let first = certificate(1, 1, &[]);
    let second = certificate(1, 1, &[&genesis[0]]);
    state.insert(first.clone());
    state.insert(second.clone());
    assert!(state.find_certificate(&first.digest()).is_none());
    assert!(state.find_digest(&first.header.id).is_none());
    assert!(state.find_certificate(&second.digest()).is_some());
    assert_eq!(state.authors(1), vec![name(1)]);
}

#[test]
fn genesis_counts_as_committed() {
    let (_, state, genesis) = start(2, 10);
    assert_eq!(state.authors(0).len(), 4);
    assert!(state.is_committed(&genesis[0]));
    assert!(!state.is_committed(&certificate(1, 1, &[])));
    assert_eq!(state.last_committed_certificate_round(), 0);
    assert_eq!(state.last_committed_leader_round(), 0);
}

#[test]
fn commits_are_recorded_and_collected() {
    let (_, mut state, _) = start(2, 10);
    let a1 = certificate(1, 1, &[]);
    let b1 = certificate(2, 1, &[]);
    let a3 = certificate(1, 3, &[]);
    state.insert(a1.clone());
    state.insert(b1.clone());
    state.insert(a3.clone());
    state.record_commit(&a3);
    assert_eq!(state.last_committed_certificate_round(), 3);
    assert!(state.is_committed(&a1));
    assert!(!state.is_committed(&b1));
    state.record_commit(&b1);
    assert_eq!(state.last_committed_certificate_round(), 3);
    state.cleanup_committed_history(2);
    assert!(state.find_certificate(&a1.digest()).is_none());
    assert!(state.find_digest(&a1.header.id).is_none());
    assert!(state.find_certificate(&b1.digest()).is_some());
    assert!(state.find_certificate(&a3.digest()).is_some());
    assert!(state.authors(0).is_empty());
    state.cleanup_committed_history(1);
    assert!(state.find_certificate(&b1.digest()).is_none());
}

#[test]
fn leader_rounds_never_go_back() {
    let (_, mut state, _) = start(2, 10);
    state.update_last_committed_leader(6);
    state.update_last_committed_leader(4);
    assert_eq!(state.last_committed_leader_round(), 6);
}

#[test]
fn statuses_are_set() {
    let (_, mut state, _) = start(2, 10);
    let c = certificate(1, 1, &[]);
    state.insert(c.clone());
    state.set_commit_status(&c, CommitStatus::Bivalent);
    assert_eq!(status(&state, 1, 1), CommitStatus::Bivalent);
    state.set_commit_status(&certificate(2, 1, &[]), CommitStatus::OneValent);
    assert!(state.entry(1, &name(2)).is_none());
}

#[test]
fn parents_are_found_in_earlier_rounds() {
    let (_, mut state, genesis) = start(2, 10);
    let a1 = certificate(1, 1, &[]);
    state.insert(a1.clone());
    assert!(find_parent_certificate(&state, 2, &a1.digest()).is_some());
    assert!(find_parent_certificate(&state, 9, &a1.digest()).is_some());
    assert!(find_parent_certificate(&state, 1, &a1.digest()).is_none());
    assert!(find_parent_certificate(&state, 2, &Digest([9; 32])).is_none());
    // The certificates of the first round stand on the genesis.
    let g = genesis[0].digest();
    let entry = find_parent_certificate(&state, 1, &g).unwrap();
    assert_eq!(entry.certificate.round(), 0);
    assert_eq!(entry.digest, g);
    assert!(find_parent_certificate(&state, 0, &g).is_none());
}

#[test]
fn links_follow_weak_edges() {
    let (_, mut state, _) = start(2, 10);
    let a1 = certificate(1, 1, &[]);
    let b1 = certificate(2, 1, &[]);
    let a2 = certificate(1, 2, &[&a1]);
    let a4 = certificate(1, 4, &[&a2]);
    for c in [&a1, &b1, &a2, &a4] {
        state.insert(c.clone());
    }
    assert!(linked(&a4, &a1, &state));
    assert!(linked(&a4, &a4, &state));
    assert!(!linked(&a4, &b1, &state));
    assert!(!linked(&a1, &a4, &state));
}

#[test]
fn links_reach_the_genesis() {
    let (_, mut state, genesis) = start(2, 10);
    let a1 = certificate(1, 1, &[&genesis[0], &genesis[1]]);
    let a2 = certificate(1, 2, &[&a1]);
    for c in [&a1, &a2] {
        state.insert(c.clone());
    }
    assert!(linked(&a1, &genesis[0], &state));
    assert!(linked(&a2, &genesis[1], &state));
    assert!(!linked(&a2, &genesis[2], &state));
}

#[test]
fn no_leader_is_asked_for_without_need() {
    let committee = Committee {
        authorities: KeyMap::new(),
        quorum_threshold: 1,
        validity_threshold: 1,
        solid_step_length: 2,
        solid_wave_length: 2,
    };
    let consensus = Consensus::new(committee, 10);
    let mut state = State::new(Vec::new());
    assert!(consensus.slow_path(9, &mut state).is_empty());
    for round in 1..=6 {
        let (fast, slow) = consensus.process_certificate(certificate(1, round, &[]), &mut state);
        assert!(fast.is_empty() && slow.is_empty());
    }
    let tip = certificate(1, 2, &[]);
    assert_eq!(places(&consensus.order_leaders(&tip, &state)), vec![(2, 1)]);
}

#[test]
fn sub_dag_is_flattened_by_round() {
    let (consensus, mut state, genesis) = start(2, 10);
    let a1 = certificate(1, 1, &[&genesis[0]]);
    let b1 = certificate(2, 1, &[&genesis[1]]);
    let c1 = certificate(3, 1, &[&genesis[2]]);
    let a2 = certificate(1, 2, &[&a1, &b1, &c1]);
    let b2 = certificate(2, 2, &[&b1]);
    let a3 = certificate(1, 3, &[&a2, &b2]);
    for c in [&a1, &b1, &c1, &a2, &b2, &a3] {
        state.insert(c.clone());
    }
    state.set_commit_status(&c1, CommitStatus::ZeroValent);
    let ordered = consensus.order_dag(&a3, &state);
    let rounds: Vec<u64> = ordered.iter().map(|c| c.round()).collect();
    assert_eq!(rounds, vec![1, 1, 2, 2, 3]);
    assert!(ordered.iter().all(|c| c.digest() != c1.digest()));
    state.record_commit(&b1);
    let again = consensus.order_dag(&a3, &state);
    assert!(again.iter().all(|c| c.digest() != b1.digest()));
    assert_eq!(again.len(), 4);
    state.record_commit(&a3);
    assert!(consensus.order_dag(&a3, &state).is_empty());
}

#[test]
fn old_certificates_are_not_committed() {
    let (consensus, mut state, _) = start(2, 1);
    let b1 = certificate(2, 1, &[]);
    let a3 = certificate(1, 3, &[&b1]);
    state.insert(b1.clone());
    state.insert(a3.clone());
    state.record_commit(&certificate(4, 3, &[]));
    assert_eq!(places(&consensus.order_dag(&a3, &state)), vec![(3, 1)]);
}

#[test]
fn shared_ancestors_are_collected_once() {
    let (consensus, mut state, _) = start(2, 10);
    let a1 = certificate(1, 1, &[]);
    let a2 = certificate(1, 2, &[&a1]);
    let b2 = certificate(2, 2, &[&a1]);
    for c in [&a1, &a2, &b2] {
        state.insert(c.clone());
    }
    let commits = consensus.collect_fast_path_commits(&vec![&b2, &a2], &state);
    assert_eq!(places(&commits), vec![(1, 1), (2, 2), (2, 1)]);
}

#[test]
fn fast_path_commits_with_a_quorum_of_support() {
    let (consensus, mut state, _) = start(2, 10);
    let first: Vec<Certificate> = (1..=4).map(|n| certificate(n, 1, &[])).collect();
    for c in &first {
        let (fast, slow) = consensus.process_certificate(c.clone(), &mut state);
        assert!(fast.is_empty() && slow.is_empty());
    }
    let supported = [&first[0], &first[1], &first[2]];
    for n in 1..=2 {
        let c = supporting(n, 2, &supported, &supported);
        let (fast, slow) = consensus.process_certificate(c, &mut state);
        assert!(fast.is_empty() && slow.is_empty());
    }
    let c = supporting(3, 2, &supported, &supported);
    let (fast, slow) = consensus.process_certificate(c.clone(), &mut state);
    assert_eq!(places(&fast), vec![(1, 1), (1, 2), (1, 3)]);
    assert!(slow.is_empty());
    assert_eq!(state.last_committed_certificate_round(), 1);
    assert_eq!(status(&state, 1, 4), CommitStatus::ZeroValent);
    // The same certificates are not committed again.
    let (fast, slow) = consensus.process_certificate(c, &mut state);
    assert!(fast.is_empty() && slow.is_empty());
}

#[test]
fn fast_path_waits_for_a_quorum() {
    let (consensus, mut state, _) = start(2, 10);
    let a1 = certificate(1, 1, &[]);
    state.insert(a1.clone());
    for n in 1..=2 {
        state.insert(supporting(n, 2, &[&a1], &[&a1]));
    }
    assert!(consensus.fast_path(2, &mut state).is_empty());
    assert_eq!(status(&state, 1, 1), CommitStatus::Pending);
    assert!(consensus.fast_path(0, &mut state).is_empty());
    assert!(consensus.fast_path(7, &mut state).is_empty());
}

#[test]
fn support_by_digest_counts_too() {
    let (consensus, mut state, _) = start(2, 10);
    let a1 = certificate(1, 1, &[]);
    state.insert(a1.clone());
    for n in 1..=3 {
        let mut c = certificate(n, 2, &[&a1]);
        c.header.store_solid_step_vertex(KeySet::from_vec(&vec![a1.digest()]));
        state.insert(c);
    }
    assert_eq!(places(&consensus.fast_path(2, &mut state)), vec![(1, 1)]);
}

#[test]
fn fast_path_commits_uncommitted_ancestors() {
    let (consensus, mut state, _) = start(2, 10);
    let a1 = certificate(1, 1, &[]);
    let a2 = certificate(1, 2, &[&a1]);
    state.insert(a1);
    state.insert(a2.clone());
    for n in 1..=3 {
        state.insert(supporting(n, 3, &[&a2], &[&a2]));
    }
    assert_eq!(places(&consensus.fast_path(3, &mut state)), vec![(1, 1), (2, 1)]);
}

fn undecided(validity_threshold: u32) -> (Consensus, State) {
    let (consensus, mut state, _) = start(validity_threshold, 10);
    let a1 = certificate(1, 1, &[]);
    state.insert(a1.clone());
    state.insert(supporting(1, 2, &[&a1], &[&a1]));
    state.insert(supporting(2, 2, &[&a1], &[&a1]));
    state.insert(certificate(3, 2, &[&a1]));
    assert!(consensus.fast_path(2, &mut state).is_empty());
    assert_eq!(status(&state, 1, 1), CommitStatus::Bivalent);
    assert_eq!(state.pending_rounds(), vec![1]);
    (consensus, state)
}

#[test]
fn slow_path_waits_for_the_leader() {
    let (consensus, mut state) = undecided(2);
    assert!(consensus.slow_path(2, &mut state).is_empty());
    assert_eq!(state.pending_rounds(), vec![1]);
    assert!(consensus.slow_path(3, &mut state).is_empty());
    assert_eq!(state.pending_rounds(), vec![1]);
    // The fourth authority leads the third round.
    state.insert(certificate(4, 3, &[]));
    assert!(consensus.slow_path(3, &mut state).is_empty());
    assert!(state.pending_rounds().is_empty());
    assert_eq!(status(&state, 1, 1), CommitStatus::ZeroValent);
}

#[test]
fn slow_path_commits_with_enough_connected_stake() {
    let (consensus, mut state) = undecided(0);
    let (fast, slow) = consensus.process_certificate(certificate(4, 3, &[]), &mut state);
    assert!(fast.is_empty());
    assert_eq!(places(&slow), vec![(1, 1)]);
    assert!(state.pending_rounds().is_empty());
}

#[test]
fn committed_rounds_leave_the_slow_path() {
    let (consensus, mut state) = undecided(2);
    state.record_commit(&certificate(2, 1, &[]));
    assert!(consensus.slow_path(2, &mut state).is_empty());
    assert!(state.pending_rounds().is_empty());
}

#[test]
fn leaders_take_turns() {
    let (consensus, mut state, _) = start(2, 10);
    for n in 1..=4 {
        state.insert(certificate(n, 6, &[]));
    }
    assert_eq!(consensus.leader(6, &state).unwrap().certificate.origin(), name(3));
    assert!(consensus.leader(5, &state).is_none());
    assert_eq!(consensus.author_to_node_id(name(3)), 2);
    assert_eq!(consensus.author_to_node_id(name(9)), 999);
}

#[test]
fn linked_leaders_are_ordered() {
    let (consensus, mut state, _) = start(2, 10);
    // Leaders: round 2 by the third, round 4 by the first, round 6 by the third authority.
    let l3 = certificate(4, 3, &[]);
    let l5 = certificate(2, 5, &[&l3]);
    let tip = certificate(3, 6, &[&l5]);
    for c in [&l3, &l5, &tip] {
        state.insert(c.clone());
    }
    assert_eq!(places(&consensus.order_leaders(&tip, &state)), vec![(6, 3), (5, 2), (3, 4)]);
    state.update_last_committed_leader(2);
    assert_eq!(places(&consensus.order_leaders(&tip, &state)), vec![(6, 3), (5, 2)]);
    state.update_last_committed_leader(u64::MAX);
    assert_eq!(places(&consensus.order_leaders(&tip, &state)), vec![(6, 3)]);
}

#[test]
fn normal_leader_rounds() {
    let (consensus, _, _) = start(2, 10);
    let rounds: Vec<Option<u64>> = (0..=8).map(|r| consensus.current_normal_leader_round(r)).collect();
    assert_eq!(
        rounds,
        vec![None, None, None, None, None, Some(2), None, Some(4), None]
    );
}

#[test]
fn dag_is_drawn() {
    let (consensus, mut state, genesis) = start(2, 10);
    let a1 = certificate(1, 1, &[&genesis[0]]);
    let b1 = certificate(2, 1, &[]);
    let mut a3 = certificate(1, 3, &[&a1]);
    a3.header.store_solid_wave_vertex(KeySet::from_vec(&vec![b1.digest()]));
    a3.header.store_solid_wave_merged_vertices(KeySet::from_vec(&vec![Digest([1; 32])]));
    for c in [&a1, &b1, &a3] {
        state.insert(c.clone());
    }
    state.set_commit_status(&b1, CommitStatus::OneValent);
    let lines = consensus.visualize_dag(&state, 4);
    assert_eq!(
        lines,
        vec![
            "Round 3: (Vertex0)[[w1,0]] weak=[[w1,0]] (solid_wave_vertices: 1) solid=[[1,1]] merged=[[?,?]] "
                .to_string(),
            "Round 1: (Vertex0)[[0,0]] (solid_wave_vertices: 0) --- (Vertex1)[] (solid_wave_vertices: 0) one-valent "
                .to_string(),
        ]
    );
}

#[test]
fn unknown_parents_are_shown_beyond_the_first_round() {
    let (consensus, mut state, _) = start(2, 10);
    let missing = certificate(4, 1, &[]);
    state.insert(certificate(1, 1, &[&missing]));
    state.insert(certificate(1, 2, &[&missing]));
    let lines = consensus.visualize_dag(&state, 2);
    assert_eq!(lines[0], "Round 2: (Vertex0)[[?,?]] (solid_wave_vertices: 0) ");
    assert_eq!(lines[1], "Round 1: (Vertex0)[] (solid_wave_vertices: 0) ");
}

#[test]
fn digest_sets_are_rendered_sorted() {
    let (consensus, mut state, _) = start(2, 10);
    let b2 = certificate(2, 2, &[]);
    let a10 = certificate(1, 10, &[]);
    state.insert(b2.clone());
    state.insert(a10.clone());
    let set = KeySet::from_vec(&vec![b2.digest(), Digest([1; 32]), a10.header.id]);
    assert_eq!(consensus.render_digest_set(&state, &set), "[10,0], [2,1], [?,?]");
    assert_eq!(consensus.render_digest_set(&state, &KeySet::new()), "");
    assert_eq!(
        consensus.find_certificate_in_dag(&state, &b2.header.id).unwrap().round,
        2
    );
}

#[test]
fn decisions_of_the_fast_path_stand() {
    let (consensus, mut state, _) = start(2, 10);
    let a1 = certificate(1, 1, &[]);
    let b1 = certificate(2, 1, &[]);
    state.insert(a1.clone());
    state.insert(b1.clone());
    state.insert(supporting(1, 2, &[&a1], &[&a1, &b1]));
    state.insert(supporting(2, 2, &[&a1], &[&a1, &b1]));
    state.insert(supporting(3, 2, &[&a1], &[&a1]));
    assert!(consensus.fast_path(2, &mut state).is_empty());
    assert_eq!(status(&state, 1, 1), CommitStatus::OneValent);
    assert_eq!(status(&state, 1, 2), CommitStatus::Bivalent);
    state.insert(certificate(4, 3, &[]));
    assert_eq!(places(&consensus.slow_path(3, &mut state)), vec![(1, 1)]);
    assert_eq!(status(&state, 1, 2), CommitStatus::ZeroValent);
    assert!(state.pending_rounds().is_empty());
}

#[test]
fn nothing_is_committed_twice() {
    let (consensus, mut state, _) = start(0, 50);
    let mut previous: Vec<Certificate> = Vec::new();
    let mut committed: Vec<(u64, u8)> = Vec::new();
    for round in 1..=12u64 {
        let mut current = Vec::new();
        for n in 1..=4u8 {
            let parents: Vec<&Certificate> = previous.iter().collect();
            // Support varies, so that some rounds are left to the slow path.
            let supported: Vec<&Certificate> = previous
                .iter()
                .filter(|c| (c.origin().0[0] as u64 + round * n as u64) % 3 != 0)
                .collect();
            let c = supporting(n, round, &parents, &supported);
            let (fast, slow) = consensus.process_certificate(c.clone(), &mut state);
            for list in [fast, slow] {
                let places = places(&list);
                let mut sorted = places.clone();
                sorted.sort_by_key(|p| p.0);
                assert_eq!(places, sorted);
                committed.extend(places);
            }
            current.push(c);
        }
        previous = current;
    }
    assert!(!committed.is_empty());
    let mut distinct = committed.clone();
    distinct.sort();
    distinct.dedup();
    assert_eq!(distinct.len(), committed.len());
}

#[test]
fn commits_go_to_the_primary_and_then_to_the_application() {
    let a = certificate(1, 1, &[]);
    let b = certificate(2, 1, &[]);
    let sent = Consensus::emit_commits(&vec![a.clone(), b.clone()]);
    let list: Vec<(Destination, Digest)> = sent.iter().map(|x| (x.0, x.1.digest())).collect();
    assert_eq!(
        list,
        vec![
            (Destination::Primary, a.digest()),
            (Destination::Application, a.digest()),
            (Destination::Primary, b.digest()),
            (Destination::Application, b.digest()),
        ]
    );
    assert!(Consensus::emit_commits(&Vec::new()).is_empty());
    // Two lists one after the other are sent as one.
    let mut parts = Consensus::emit_commits(&vec![a]);
    parts.extend(Consensus::emit_commits(&vec![b]));
    let parts: Vec<(Destination, Digest)> = parts.iter().map(|x| (x.0, x.1.digest())).collect();
    assert_eq!(parts, list);
}
