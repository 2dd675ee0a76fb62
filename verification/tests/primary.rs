use dag_consensus::aggregators::CertificatesAggregator;
use dag_consensus::collections::{KeyMap, KeySet};
use dag_consensus::committee::{Authority, Committee, RoundRule};
use dag_consensus::crypto::{Digest, PublicKey, Signature};
use dag_consensus::error::DagError;
use dag_consensus::messages::{Certificate, Header, Vote};
use dag_consensus::primary::{
    CertificateAction, CertificateEvent, Core, HeaderAction, HeaderEvent,
};
use ed25519_dalek::{Keypair, SecretKey, Signer};

fn keypair(n: u8) -> Keypair {
    let secret = SecretKey::from_bytes(&[n; 32]).unwrap();
    let public = ed25519_dalek::PublicKey::from(&secret);
    Keypair { secret, public }
}

fn name(n: u8) -> PublicKey {
    PublicKey(keypair(n).public.to_bytes())
}

fn sign(n: u8, digest: &Digest) -> Signature {
    let bytes = keypair(n).sign(&digest.0).to_bytes();
    let mut part1 = [0u8; 32];
    let mut part2 = [0u8; 32];
    part1.copy_from_slice(&bytes[..32]);
    part2.copy_from_slice(&bytes[32..]);
    Signature { part1, part2 }
}

fn committee() -> Committee {
    let mut authorities = KeyMap::new();
    for n in 1..=4u8 {
        let _ = authorities.insert(name(n), Authority { stake: 1, workers: KeySet::new() });
    }
    Committee {
        authorities,
        quorum_threshold: 3,
        validity_threshold: 2,
        solid_step_length: 2,
        solid_wave_length: 4,
    }
}

fn started() -> Core {
    Core::new(name(1), committee(), 5)
}

fn header(author: u8, round: u64) -> Header {
    let mut header = Header::new(name(author), round, KeyMap::new(), KeySet::new());
    let signature = sign(author, &header.id);
    header.sign(signature);
    header
}

fn certificate(author: u8, round: u64) -> Certificate {
    Certificate { header: header(author, round), votes: Vec::new() }
}

fn merged(author: u8, round: u64, list: &[u8]) -> Certificate {
    let mut c = certificate(author, round);
    let set: Vec<Digest> = list.iter().map(|n| Digest([*n; 32])).collect();
    c.header.store_solid_step_merged_vertices(KeySet::from_vec(&set));
    c
}

fn by_stake(threshold: u32) -> RoundRule {
    RoundRule { is_solid_step: false, processing_threshold: threshold }
}

fn by_vertices(threshold: u32) -> RoundRule {
    RoundRule { is_solid_step: true, processing_threshold: threshold }
}

fn on_parents(h: &Header, parents: Vec<Certificate>, rule: RoundRule) -> Result<HeaderAction, DagError> {
    started().process_header(h, HeaderEvent::Parents { parents, rule })
}

#[test]
fn headers_go_through_their_steps() {
    let mut primary = started();
    let h = header(2, 3);
    assert!(matches!(primary.process_header(&h, HeaderEvent::Arrived), Ok(HeaderAction::GetParents)));
    let parents = vec![certificate(1, 2), certificate(3, 2), certificate(4, 2)];
    assert!(matches!(
        primary.process_header(&h, HeaderEvent::Parents { parents, rule: by_stake(3) }),
        Ok(HeaderAction::GetPayload)
    ));
    assert!(matches!(
        primary.process_header(&h, HeaderEvent::Payload { missing: true }),
        Ok(HeaderAction::Suspend)
    ));
    assert!(matches!(
        primary.process_header(&h, HeaderEvent::Payload { missing: false }),
        Ok(HeaderAction::Store)
    ));
    match primary.process_header(&h, HeaderEvent::Stored) {
        Ok(HeaderAction::SendVote(vote)) => {
            assert_eq!(vote.id, h.id);
            assert_eq!(vote.origin, name(2));
            assert_eq!(vote.author, name(1));
        }
        _ => panic!("the vote goes to the author"),
    }
}

#[test]
fn an_author_gets_one_vote_in_a_round() {
    let mut primary = started();
    let first = header(2, 3);
    let mut second = header(2, 3);
    second.id = Digest([9; 32]);
    assert!(matches!(primary.process_header(&first, HeaderEvent::Stored), Ok(HeaderAction::SendVote(_))));
    assert!(matches!(primary.process_header(&second, HeaderEvent::Stored), Ok(HeaderAction::Discard)));
    assert!(matches!(
        primary.process_header(&header(2, 4), HeaderEvent::Stored),
        Ok(HeaderAction::SendVote(_))
    ));
    // Once the round is forgotten the vote is too.
    primary.cleanup(9);
    assert_eq!(primary.gc_round(), 4);
    assert!(matches!(primary.process_header(&second, HeaderEvent::Stored), Ok(HeaderAction::SendVote(_))));
    assert!(matches!(
        primary.process_header(&header(2, 4), HeaderEvent::Stored),
        Ok(HeaderAction::Discard)
    ));
}

#[test]
fn headers_without_parents_wait() {
    assert!(matches!(on_parents(&header(2, 3), vec![], by_stake(3)), Ok(HeaderAction::Suspend)));
}

#[test]
fn parents_must_be_in_the_wave() {
    // Round 7 builds on the rounds 4 to 6.
    let h = header(2, 7);
    assert!(on_parents(&h, vec![certificate(1, 4)], by_stake(0)).is_ok());
    for round in [3, 7] {
        match on_parents(&h, vec![certificate(1, 6), certificate(1, round)], by_stake(0)) {
            Err(DagError::MalformedHeader(id)) => assert_eq!(id, h.id),
            _ => panic!("the parent is out of the window"),
        }
    }
}

#[test]
fn parents_must_bring_stake() {
    // For round 8 the rounds 6 and 7 are in the window of the step.
    let h = header(2, 8);
    let parents = vec![certificate(1, 7), certificate(2, 6), certificate(3, 5)];
    assert!(on_parents(&h, parents.clone(), by_stake(2)).is_ok());
    match on_parents(&h, parents, by_stake(3)) {
        Err(DagError::HeaderRequiresQuorum(id)) => assert_eq!(id, h.id),
        _ => panic!("the stake does not suffice"),
    }
}

#[test]
fn parents_must_bring_vertices() {
    let h = header(2, 8);
    let parents = vec![merged(1, 7, &[1, 2]), merged(2, 6, &[2, 3]), merged(3, 5, &[4])];
    assert!(on_parents(&h, parents.clone(), by_vertices(3)).is_ok());
    assert!(matches!(
        on_parents(&h, parents, by_vertices(4)),
        Err(DagError::HeaderRequiresQuorum(_))
    ));
}

#[test]
fn own_headers_collect_votes() {
    let mut primary = started();
    let h = header(1, 3);
    let vote = |n: u8| Vote::new(&h, &name(n));
    // Votes for unknown headers are ignored.
    assert!(matches!(primary.process_vote(vote(2)), Ok(None)));
    primary.track_own_header(&h);
    match primary.process_header(&h, HeaderEvent::Stored) {
        Ok(HeaderAction::CountVote(own)) => assert!(matches!(primary.process_vote(own), Ok(None))),
        _ => panic!("the own vote is counted"),
    }
    assert!(matches!(primary.process_vote(vote(1)), Err(DagError::AuthorityReuse(_))));
    assert!(matches!(primary.process_vote(vote(2)), Ok(None)));
    let made = primary.process_vote(vote(3)).unwrap().unwrap();
    assert_eq!(made.header.id, h.id);
    assert_eq!(made.votes.len(), 3);
    // The header is no longer pending.
    assert!(matches!(primary.process_vote(vote(4)), Ok(None)));
}

#[test]
fn old_pending_headers_are_forgotten() {
    let mut primary = started();
    let h = header(1, 3);
    primary.track_own_header(&h);
    assert!(matches!(primary.process_vote(Vote::new(&h, &name(2))), Ok(None)));
    primary.cleanup(5);
    assert_eq!(primary.gc_round(), 0);
    assert!(primary.process_vote(Vote::new(&h, &name(2))).is_err());
    primary.cleanup(9);
    assert!(matches!(primary.process_vote(Vote::new(&h, &name(2))), Ok(None)));
}

#[test]
fn certificates_go_through_their_steps() {
    let mut primary = started();
    let c = certificate(2, 3);
    assert!(matches!(
        primary.process_certificate(&c, CertificateEvent::Arrived),
        CertificateAction::ProcessHeader
    ));
    let _ = primary.process_header(&c.header, HeaderEvent::Arrived);
    assert!(matches!(
        primary.process_certificate(&c, CertificateEvent::Arrived),
        CertificateAction::GetAncestors
    ));
    assert!(matches!(
        primary.process_certificate(&c, CertificateEvent::HeaderDone),
        CertificateAction::GetAncestors
    ));
    assert!(matches!(
        primary.process_certificate(&c, CertificateEvent::Delivered { complete: false }),
        CertificateAction::Suspend
    ));
    assert!(matches!(
        primary.process_certificate(&c, CertificateEvent::Delivered { complete: true }),
        CertificateAction::Store
    ));
}

#[test]
fn certificates_become_parents_of_a_wave_of_rounds() {
    let mut primary = started();
    let mut sent = Vec::new();
    for n in 1..=3 {
        let rules = vec![by_stake(3), by_stake(3), by_stake(3), by_stake(0)];
        match primary.process_certificate(&certificate(n, 4), CertificateEvent::Stored { rules }) {
            CertificateAction::Deliver(list) => {
                sent.push(list.iter().map(|p| (p.1, p.0.parents.len())).collect::<Vec<_>>())
            }
            _ => panic!("the certificate is delivered"),
        }
    }
    // Stake counts in the certificates' own round; the last round asks for none.
    assert_eq!(sent, vec![vec![(7, 1)], vec![(7, 2)], vec![(4, 3), (7, 3)]]);
    primary.cleanup(12);
    match primary.process_certificate(
        &certificate(4, 7),
        CertificateEvent::Stored { rules: vec![by_stake(1); 4] },
    ) {
        CertificateAction::Deliver(list) => {
            assert_eq!(list.len(), 1);
            assert_eq!(list[0].1, 7);
            assert_eq!(list[0].0.parents.len(), 4);
        }
        _ => panic!("the certificate is delivered"),
    }
}

#[test]
fn messages_are_sanitized() {
    let mut primary = started();
    primary.cleanup(8);
    assert!(primary.sanitize_header(&header(2, 3)).is_ok());
    match primary.sanitize_header(&header(2, 2)) {
        Err(DagError::TooOld(id, round)) => {
            assert_eq!(id, header(2, 2).id);
            assert_eq!(round, 2);
        }
        _ => panic!("the header is too old"),
    }
    assert!(matches!(primary.sanitize_header(&header(9, 3)), Err(DagError::UnknownAuthority(_))));
    let mut stranger = Vote::new(&header(2, 3), &name(9));
    let signature = sign(9, &stranger.digest());
    stranger.sign(signature);
    assert!(matches!(primary.sanitize_vote(&stranger), Err(DagError::UnknownAuthority(_))));
    let mut vote = Vote::new(&header(2, 3), &name(3));
    assert!(matches!(primary.sanitize_vote(&vote), Err(DagError::InvalidSignature)));
    let signature = sign(3, &vote.digest());
    vote.sign(signature);
    assert!(primary.sanitize_vote(&vote).is_ok());
    let old = certificate(2, 2);
    match primary.sanitize_certificate(&old) {
        Err(DagError::TooOld(id, round)) => {
            assert_eq!(id, old.digest());
            assert_eq!(round, 2);
        }
        _ => panic!("the certificate is too old"),
    }
    let mut c = certificate(2, 3);
    assert!(matches!(primary.sanitize_certificate(&c), Err(DagError::CertificateRequiresQuorum)));
    let digest = c.digest();
    for n in 1..=3 {
        c.votes.push((name(n), sign(n, &digest)));
    }
    assert!(primary.sanitize_certificate(&c).is_ok());
}

#[test]
fn vertices_have_labels() {
    let primary = started();
    let place = primary.node_index(&name(2)).unwrap();
    assert_eq!(primary.step_vertex_label(7, &name(2)), format!("[7,{}]", place));
    assert_eq!(primary.step_vertex_label(7, &name(9)), "[7,999]");
    assert_eq!(primary.node_index(&name(9)), None);
}

#[test]
fn collected_votes_make_a_valid_certificate() {
    let mut primary = started();
    let h = header(1, 3);
    primary.track_own_header(&h);
    let mut made = None;
    for n in 1..=3 {
        let mut vote = Vote::new(&h, &name(n));
        let signature = sign(n, &vote.digest());
        vote.sign(signature);
        made = primary.process_vote(vote).unwrap();
    }
    assert!(primary.sanitize_certificate(&made.unwrap()).is_ok());
}

#[test]
fn collected_parents_are_accepted() {
    for rule in [by_stake(3), by_vertices(4)] {
        let mut collected = CertificatesAggregator::new(7);
        let mut counted = Vec::new();
        let arrivals = vec![
            merged(1, 7, &[1, 2]),
            merged(1, 7, &[9]),
            merged(2, 6, &[2, 3]),
            merged(3, 4, &[8]),
            merged(3, 3, &[7]),
            merged(2, 7, &[3]),
            merged(4, 7, &[4]),
        ];
        let mut handed = None;
        for (i, c) in arrivals.into_iter().enumerate() {
            let parents = collected.append(c.clone(), &committee(), rule).unwrap();
            // The second comes twice, the fifth is of an earlier wave.
            if i != 1 && i != 4 {
                counted.push(c);
            }
            handed = parents.or(handed);
        }
        let digests: Vec<Digest> = counted.iter().map(|c| c.digest()).collect();
        assert_eq!(handed.unwrap().parents, digests);
        assert!(matches!(on_parents(&header(1, 8), counted, rule), Ok(HeaderAction::GetPayload)));
    }
}

#[test]
fn refused_messages_change_nothing() {
    let mut primary = started();
    let h = header(1, 3);
    primary.track_own_header(&h);

    // A vote counts only if it is signed by a member, however often it comes.
    let mut stranger = Vote::new(&h, &name(9));
    let signature = sign(9, &stranger.digest());
    stranger.sign(signature);
    assert!(matches!(primary.receive_vote(stranger), Err(DagError::UnknownAuthority(_))));
    for n in 1..=4 {
        let vote = Vote::new(&h, &name(n));
        assert!(matches!(primary.receive_vote(vote), Err(DagError::InvalidSignature)));
    }
    let mut made = Vec::new();
    for n in 1..=3 {
        let mut vote = Vote::new(&h, &name(n));
        let signature = sign(n, &vote.digest());
        vote.sign(signature);
        made.push(primary.receive_vote(vote).unwrap().is_some());
    }
    assert_eq!(made, vec![false, false, true]);

    // A refused header is not under way afterwards, an accepted one is.
    let mut unsigned = header(2, 3);
    unsigned.sign(Signature::default());
    assert!(matches!(primary.receive_header(&unsigned), Err(DagError::InvalidSignature)));
    let mut c = certificate(2, 3);
    let digest = c.digest();
    assert!(matches!(primary.receive_certificate(&c), Err(DagError::CertificateRequiresQuorum)));
    for n in 1..=3 {
        c.votes.push((name(n), sign(n, &digest)));
    }
    assert!(matches!(primary.receive_certificate(&c), Ok(CertificateAction::ProcessHeader)));
    assert!(matches!(primary.receive_header(&header(2, 3)), Ok(HeaderAction::GetParents)));
    assert!(matches!(primary.receive_certificate(&c), Ok(CertificateAction::GetAncestors)));
    c.votes[0].1 = sign(2, &digest);
    assert!(matches!(primary.receive_certificate(&c), Err(DagError::InvalidSignature)));

    primary.cleanup(9);
    assert!(matches!(primary.receive_header(&header(2, 3)), Err(DagError::TooOld(..))));
    assert!(matches!(primary.receive_certificate(&c), Err(DagError::TooOld(..))));
}

#[test]
fn waves_without_rounds_have_no_parents() {
    let mut committee = committee();
    committee.solid_step_length = 0;
    committee.solid_wave_length = 0;
    let mut primary = Core::new(name(1), committee, 5);
    let event = CertificateEvent::Stored { rules: Vec::new() };
    match primary.process_certificate(&certificate(2, 3), event) {
        CertificateAction::Deliver(list) => assert!(list.is_empty()),
        _ => panic!("the certificate is delivered"),
    }
}
