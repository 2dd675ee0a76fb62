use dag_consensus::aggregators::{CertificatesAggregator, VotesAggregator};
use dag_consensus::collections::{KeyMap, KeySet};
use dag_consensus::committee::{Authority, Committee, RoundRule};
use dag_consensus::crypto::{Digest, PublicKey};
use dag_consensus::error::DagError;
use dag_consensus::messages::{Certificate, Header, Vote};

fn name(n: u8) -> PublicKey {
    PublicKey([n; 32])
}

fn committee() -> Committee {
    let mut authorities = KeyMap::new();
    for n in 1..=4u8 {
        let _ = authorities.insert(name(n), Authority { stake: 1, workers: KeySet::new() });
    }
    Committee {
        authorities,
        quorum_threshold: 3,
        validity_threshold: 2,
        solid_step_length: 2,
        solid_wave_length: 4,
    }
}

fn header(author: u8, round: u64) -> Header {
    Header::new(name(author), round, KeyMap::new(), KeySet::new())
}

fn certificate(author: u8, round: u64, vertices: &[u8], merged: &[u8]) -> Certificate {
    let mut header = header(author, round);
    let set = |list: &[u8]| {
        KeySet::from_vec(&list.iter().map(|n| Digest([*n; 32])).collect::<Vec<Digest>>())
    };
    header.store_solid_step_vertex(set(vertices));
    header.store_solid_step_merged_vertices(set(merged));
    header.store_solid_wave_vertex(set(vertices));
    header.store_solid_wave_merged_vertices(set(merged));
    Certificate { header, votes: Vec::new() }
}

fn by_stake(threshold: u32) -> RoundRule {
    RoundRule { is_solid_step: false, processing_threshold: threshold }
}

fn by_vertices(threshold: u32) -> RoundRule {
    RoundRule { is_solid_step: true, processing_threshold: threshold }
}

#[test]
fn votes_make_one_certificate() {
    let committee = committee();
    let header = header(1, 5);
    let mut votes = VotesAggregator::new();
    for n in 1..=2 {
        let vote = Vote::new(&header, &name(n));
        assert!(votes.append(vote, &committee, &header).unwrap().is_none());
    }
    let made = votes.append(Vote::new(&header, &name(3)), &committee, &header).unwrap().unwrap();
    assert_eq!(made.header.id, header.id);
    let voters: Vec<PublicKey> = made.votes.iter().map(|v| v.0).collect();
    assert_eq!(voters, vec![name(1), name(2), name(3)]);
    // The quorum is reached only once.
    let vote = Vote::new(&header, &name(4));
    assert!(votes.append(vote, &committee, &header).unwrap().is_none());
}

#[test]
fn an_authority_votes_once() {
    let committee = committee();
    let header = header(1, 5);
    let mut votes = VotesAggregator::new();
    let vote = Vote::new(&header, &name(2));
    assert!(votes.append(vote, &committee, &header).is_ok());
    match votes.append(vote, &committee, &header) {
        Err(DagError::AuthorityReuse(voter)) => assert_eq!(voter, name(2)),
        _ => panic!("the vote comes twice"),
    }
}

#[test]
fn votes_without_stake_do_not_count() {
    let committee = committee();
    let header = header(1, 5);
    let mut votes = VotesAggregator::new();
    for n in [1, 2, 8, 9] {
        let vote = Vote::new(&header, &name(n));
        assert!(votes.append(vote, &committee, &header).unwrap().is_none());
    }
    let made = votes.append(Vote::new(&header, &name(3)), &committee, &header).unwrap().unwrap();
    assert_eq!(made.votes.len(), 5);
}

#[test]
fn certificates_make_parents_by_stake() {
    let committee = committee();
    let mut parents = CertificatesAggregator::new(6);
    for n in 1..=2 {
        let c = certificate(n, 6, &[n], &[]);
        assert!(parents.append(c, &committee, by_stake(3)).unwrap().is_none());
    }
    // A second certificate of the same authority does not count.
    let c = certificate(2, 6, &[2], &[]);
    assert!(parents.append(c, &committee, by_stake(3)).unwrap().is_none());
    let c = certificate(3, 6, &[3], &[30]);
    let snapshot = parents.append(c, &committee, by_stake(3)).unwrap().unwrap();
    assert_eq!(snapshot.parents.len(), 3);
    // What is merged goes before what is not.
    assert_eq!(
        snapshot.solid_step_union.to_vec(),
        vec![Digest([1; 32]), Digest([2; 32]), Digest([30; 32])]
    );
    assert_eq!(snapshot.solid_wave_union.len(), 3);
    assert!(snapshot.solid_step_sources.get(&Digest([1; 32])).unwrap().is_relay_only());
    assert!(parents.last_solid_step_union_digests().is_none());
    // Later parents are handed on as well.
    let c = certificate(4, 6, &[4], &[]);
    assert_eq!(parents.append(c, &committee, by_stake(3)).unwrap().unwrap().parents.len(), 4);
}

#[test]
fn certificates_make_parents_by_vertices() {
    let committee = committee();
    let mut parents = CertificatesAggregator::new(7);
    let c = certificate(1, 7, &[1, 2], &[]);
    assert!(parents.append(c, &committee, by_vertices(3)).unwrap().is_none());
    assert_eq!(parents.last_solid_step_union_digests().unwrap().len(), 2);
    // A weak parent of the same step brings its vertices directly.
    let c = certificate(2, 6, &[2, 3], &[]);
    let snapshot = parents.append(c, &committee, by_vertices(3)).unwrap().unwrap();
    assert_eq!(snapshot.parents.len(), 2);
    assert!(snapshot.solid_step_sources.get(&Digest([1; 32])).unwrap().is_relay_only());
    assert!(snapshot.solid_step_sources.get(&Digest([2; 32])).unwrap().is_both());
    assert!(snapshot.solid_step_sources.get(&Digest([3; 32])).unwrap().is_direct_weak_only());
    assert_eq!(
        parents.last_solid_step_union_digests().unwrap(),
        &vec![Digest([1; 32]), Digest([2; 32]), Digest([3; 32])]
    );
    let provenance = snapshot.provenance();
    assert_eq!(provenance.relay_only, vec![Digest([1; 32])]);
    assert_eq!(provenance.both, vec![Digest([2; 32])]);
    assert_eq!(provenance.direct_weak_only, vec![Digest([3; 32])]);
}

#[test]
fn windows_of_step_and_wave() {
    let committee = committee();
    // Round 7 belongs to the step of rounds 6 and 7 and to the wave of rounds 4 to 7.
    let mut parents = CertificatesAggregator::new(7);
    let c = certificate(1, 5, &[1], &[]);
    let snapshot = parents.append(c, &committee, by_stake(0)).unwrap().unwrap();
    assert_eq!(snapshot.parents.len(), 1);
    assert!(snapshot.solid_step_union.is_empty());
    assert_eq!(snapshot.solid_wave_union.len(), 1);
    let c = certificate(1, 4, &[2], &[]);
    assert!(parents.append(c, &committee, by_stake(0)).unwrap().is_some());
    for round in [3, 8] {
        let c = certificate(1, round, &[3], &[]);
        assert!(parents.append(c, &committee, by_stake(0)).unwrap().is_none());
    }
    // Weak parents bring no stake.
    let c = certificate(2, 6, &[4], &[]);
    assert!(parents.append(c, &committee, by_stake(1)).unwrap().is_none());
}

#[test]
fn counted_parents_stay_listed() {
    let committee = committee();
    let mut parents = CertificatesAggregator::new(7);
    let list = [(1, 4), (2, 5), (2, 6), (3, 7), (3, 8), (4, 3), (4, 7)];
    let mut counted = Vec::new();
    for (author, round) in list {
        let c = certificate(author, round, &[author], &[]);
        let digest = c.digest();
        match parents.append(c, &committee, by_stake(0)).unwrap() {
            Some(snapshot) => {
                counted.push(digest);
                assert_eq!(snapshot.parents, counted);
            }
            None => assert!(round > 7 || round < 4),
        }
    }
    assert_eq!(counted.len(), 5);
    // A second certificate of an author in the expected round is not counted.
    let c = certificate(3, 7, &[9], &[]);
    assert!(parents.append(c, &committee, by_stake(0)).unwrap().is_none());
}
