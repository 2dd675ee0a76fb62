use dag_consensus::collections::{KeyMap, KeySet};
use dag_consensus::committee::{Authority, Committee};
use dag_consensus::crypto::{hash, Digest, PublicKey, Signature};
use dag_consensus::error::{DagError, Severity};
use dag_consensus::messages::{Certificate, Header, ProposalParents, StepVertexSource, Vote};
use ed25519_dalek::{Digest as _, Keypair, SecretKey, Sha512, Signer};

fn keypair(n: u8) -> Keypair {
    let secret = SecretKey::from_bytes(&[n; 32]).unwrap();
    let public = ed25519_dalek::PublicKey::from(&secret);
    Keypair { secret, public }
}

fn name(n: u8) -> PublicKey {
    PublicKey(keypair(n).public.to_bytes())
}

fn sign(n: u8, digest: &Digest) -> Signature {
    let bytes = keypair(n).sign(&digest.0).to_bytes();
    let mut part1 = [0u8; 32];
    let mut part2 = [0u8; 32];
    part1.copy_from_slice(&bytes[..32]);
    part2.copy_from_slice(&bytes[32..]);
    Signature { part1, part2 }
}

fn committee() -> Committee {
    let mut authorities = KeyMap::new();
    for n in 1..=4u8 {
        let workers = KeySet::from_vec(&vec![0u32, 1u32]);
        let _ = authorities.insert(name(n), Authority { stake: 1, workers });
    }
    Committee {
        authorities,
        quorum_threshold: 3,
        validity_threshold: 2,
        solid_step_length: 2,
        solid_wave_length: 4,
    }
}

fn signed_header(n: u8, round: u64) -> Header {
    let mut payload = KeyMap::new();
    let _ = payload.insert(Digest([7; 32]), 1u32);
    let parents = KeySet::from_vec(&vec![Digest([3; 32]), Digest([2; 32])]);
    let mut header = Header::new(name(n), round, payload, parents);
    let signature = sign(n, &header.id);
    header.sign(signature);
    header
}

fn certificate(voters: &[u8]) -> Certificate {
    let header = signed_header(1, 5);
    let mut certificate = Certificate { header, votes: Vec::new() };
    let digest = certificate.digest();
    for n in voters {
        certificate.votes.push((name(*n), sign(*n, &digest)));
    }
    certificate
}

fn hex(bytes: &[u8]) -> String {
    bytes.iter().map(|b| format!("{:02x}", b)).collect()
}

#[test]
fn hash_of_nothing_is_known() {
    let digest = hash(&Vec::new());
    assert_eq!(
        hex(&digest.0),
        "cf83e1357eefb8bdf1542850d66d8007d620e4050b5715dc83f4a921d36ce9ce"
    );
}

#[test]
fn hash_of_text_is_known() {
    let digest = hash(&b"abc".to_vec());
    assert_eq!(
        hex(&digest.0),
        "ddaf35a193617abacc417349ae20413112e6fa4e89a97ea20a9eeee64b55d39a"
    );
}

#[test]
fn header_id_covers_author_round_payload_and_parents() {
    let header = signed_header(1, 5);
    let mut hasher = Sha512::new();
    hasher.update(name(1).0);
    hasher.update(5u64.to_le_bytes());
    hasher.update([7u8; 32]);
    hasher.update(1u32.to_le_bytes());
    hasher.update([2u8; 32]);
    hasher.update([3u8; 32]);
    let expected = hasher.finalize();
    assert_eq!(header.id.0[..], expected[..32]);
    assert_eq!(header.digest().0, header.id.0);
}

#[test]
fn header_id_does_not_cover_vertices() {
    let mut header = signed_header(1, 5);
    let before = header.digest();
    header.store_solid_step_vertex(KeySet::from_vec(&vec![Digest([9; 32])]));
    header.store_solid_wave_merged_vertices(KeySet::from_vec(&vec![Digest([8; 32])]));
    assert_eq!(header.digest().0, before.0);
    assert!(header.verify(&committee()).is_ok());
}

#[test]
fn stored_vertices_add_up() {
    let mut header = Header::default();
    header.store_solid_step_vertex(KeySet::from_vec(&vec![Digest([1; 32])]));
    header.store_solid_step_vertex(KeySet::from_vec(&vec![Digest([2; 32]), Digest([1; 32])]));
    header.store_solid_step_merged_vertices(KeySet::from_vec(&vec![Digest([3; 32])]));
    header.store_solid_wave_vertex(KeySet::from_vec(&vec![Digest([4; 32])]));
    header.store_solid_wave_merged_vertices(KeySet::from_vec(&vec![Digest([5; 32])]));
    assert_eq!(header.solid_step_vertices.len(), 2);
    assert!(header.solid_step_vertices_merged.contains(&Digest([3; 32])));
    assert!(header.solid_wave_vertices.contains(&Digest([4; 32])));
    assert!(header.solid_wave_vertices_merged.contains(&Digest([5; 32])));
}

#[test]
fn valid_header_is_accepted() {
    assert!(signed_header(1, 5).verify(&committee()).is_ok());
}

#[test]
fn header_with_wrong_id_is_rejected() {
    let mut header = signed_header(1, 5);
    header.id = Digest([0; 32]);
    assert!(matches!(header.verify(&committee()), Err(DagError::InvalidHeaderId)));
}

#[test]
fn header_of_stranger_is_rejected() {
    let header = signed_header(9, 5);
    match header.verify(&committee()) {
        Err(DagError::UnknownAuthority(stranger)) => assert_eq!(stranger.0, name(9).0),
        _ => panic!("the author is not in the committee"),
    }
}

#[test]
fn header_with_unknown_worker_is_rejected() {
    let mut payload = KeyMap::new();
    let _ = payload.insert(Digest([7; 32]), 5u32);
    let mut header = Header::new(name(1), 5, payload, KeySet::new());
    let signature = sign(1, &header.id);
    header.sign(signature);
    match header.verify(&committee()) {
        Err(DagError::MalformedHeader(id)) => assert_eq!(id.0, header.id.0),
        _ => panic!("the worker does not exist"),
    }
}

#[test]
fn header_with_foreign_signature_is_rejected() {
    let mut header = signed_header(1, 5);
    let signature = sign(2, &header.id);
    header.sign(signature);
    assert!(matches!(header.verify(&committee()), Err(DagError::InvalidSignature)));
    assert!(header.verify_with(&committee(), true).is_ok());
}

#[test]
fn signature_is_checked() {
    let digest = Digest([4; 32]);
    let signature = sign(1, &digest);
    assert!(signature.verify(&digest, &name(1)));
    assert!(!signature.verify(&Digest([5; 32]), &name(1)));
    assert!(!signature.verify(&digest, &name(2)));
    assert!(!Signature::default().verify(&digest, &name(1)));
}

#[test]
fn batch_is_checked() {
    let digest = Digest([4; 32]);
    let good = vec![(name(1), sign(1, &digest)), (name(2), sign(2, &digest))];
    assert!(Signature::verify_batch(&digest, &good));
    let bad = vec![(name(1), sign(1, &digest)), (name(2), sign(1, &digest))];
    assert!(!Signature::verify_batch(&digest, &bad));
    let undecodable = vec![(name(1), Signature { part1: [255; 32], part2: [255; 32] })];
    assert!(!Signature::verify_batch(&digest, &undecodable));
    let mut high = sign(1, &digest);
    high.part2[31] = high.part2[31] | 32;
    assert!(!Signature::verify_batch(&digest, &vec![(name(1), high)]));
    let no_point = vec![(PublicKey([2; 32]), sign(1, &digest))];
    assert!(!Signature::verify_batch(&digest, &no_point));
}

#[test]
fn vote_names_its_header() {
    let header = signed_header(1, 5);
    let vote = Vote::new(&header, &name(2));
    assert_eq!(vote.id.0, header.id.0);
    assert_eq!(vote.round, 5);
    assert_eq!(vote.origin.0, name(1).0);
    assert_eq!(vote.author.0, name(2).0);
}

#[test]
fn vote_and_certificate_have_the_same_digest() {
    let header = signed_header(1, 5);
    let vote = Vote::new(&header, &name(2));
    let mut hasher = Sha512::new();
    hasher.update(header.id.0);
    hasher.update(5u64.to_le_bytes());
    hasher.update(name(1).0);
    let expected = hasher.finalize();
    let certificate = Certificate { header, votes: Vec::new() };
    assert_eq!(vote.digest().0[..], expected[..32]);
    assert_eq!(certificate.digest().0, vote.digest().0);
}

#[test]
fn votes_are_checked() {
    let header = signed_header(1, 5);
    let mut vote = Vote::new(&header, &name(2));
    assert!(matches!(vote.verify(&committee()), Err(DagError::InvalidSignature)));
    let signature = sign(2, &vote.digest());
    vote.sign(signature);
    assert!(vote.verify(&committee()).is_ok());
    let mut stranger = Vote::new(&header, &name(9));
    let signature = sign(9, &stranger.digest());
    stranger.sign(signature);
    assert!(matches!(stranger.verify(&committee()), Err(DagError::UnknownAuthority(_))));
}

#[test]
fn genesis_is_accepted() {
    let committee = committee();
    let genesis = Certificate::genesis(&committee);
    assert_eq!(genesis.len(), 4);
    for certificate in &genesis {
        assert_eq!(certificate.round(), 0);
        assert!(certificate.verify(&committee).is_ok());
    }
    assert!(genesis[0].origin().0 < genesis[1].origin().0);
}

#[test]
fn certificate_with_quorum_is_accepted() {
    assert!(certificate(&[1, 2, 3]).verify(&committee()).is_ok());
    assert!(certificate(&[4, 2, 3, 1]).verify(&committee()).is_ok());
}

#[test]
fn certificate_without_quorum_is_rejected() {
    assert!(matches!(
        certificate(&[1, 2]).verify(&committee()),
        Err(DagError::CertificateRequiresQuorum)
    ));
}

#[test]
fn certificate_with_repeated_vote_is_rejected() {
    match certificate(&[1, 2, 2]).verify(&committee()) {
        Err(DagError::AuthorityReuse(voter)) => assert_eq!(voter.0, name(2).0),
        _ => panic!("a voter comes twice"),
    }
}

#[test]
fn certificate_with_vote_of_stranger_is_rejected() {
    match certificate(&[1, 9, 2]).verify(&committee()) {
        Err(DagError::UnknownAuthority(voter)) => assert_eq!(voter.0, name(9).0),
        _ => panic!("a voter is not in the committee"),
    }
}

#[test]
fn certificate_with_bad_vote_signature_is_rejected() {
    let mut certificate = certificate(&[1, 2, 3]);
    certificate.votes[1].1 = certificate.votes[0].1;
    assert!(matches!(certificate.verify(&committee()), Err(DagError::InvalidSignature)));
    assert!(certificate.verify_with(&committee(), true).is_ok());
}

#[test]
fn certificate_with_bad_header_is_rejected() {
    let mut certificate = certificate(&[1, 2, 3]);
    certificate.header.id = Digest([1; 32]);
    assert!(matches!(certificate.verify(&committee()), Err(DagError::InvalidHeaderId)));
}

#[test]
fn certificates_are_equal_by_header() {
    assert!(certificate(&[1, 2, 3]) == certificate(&[2, 3, 4]));
    assert!(certificate(&[1, 2, 3]) != Certificate::default());
}

#[test]
fn sources_merge() {
    let mut source = StepVertexSource::direct_weak();
    assert!(source.is_direct_weak_only());
    assert!(!source.is_both());
    source.merge(StepVertexSource::relay_merged());
    assert!(source.is_both());
    assert!(!source.is_relay_only());
    assert!(StepVertexSource::relay_merged().is_relay_only());
    let none = StepVertexSource::default();
    assert!(!none.is_both() && !none.is_direct_weak_only() && !none.is_relay_only());
}

#[test]
fn parents_alone_make_a_snapshot() {
    let snapshot = ProposalParents::from(vec![Digest([1; 32]), Digest([2; 32])]);
    assert_eq!(snapshot.parents.len(), 2);
    assert!(snapshot.solid_step_union.is_empty());
    assert!(snapshot.solid_step_sources.is_empty());
    assert!(snapshot.solid_wave_union.is_empty());
}

#[test]
fn errors_have_a_severity() {
    assert_eq!(DagError::StoreError.severity(), Severity::Fatal);
    assert_eq!(DagError::TooOld(Digest([0; 32]), 3).severity(), Severity::Expected);
    assert_eq!(DagError::InvalidSignature.severity(), Severity::Warning);
}

#[test]
fn messages_have_a_text() {
    let header = signed_header(1, 5);
    assert_eq!(header.debug_text("id", "me"), "id: B5(me, 32)");
    assert_eq!(header.display_text("me"), "B5(me)");
    let vote = Vote::new(&header, &name(2));
    assert_eq!(vote.debug_text("d", "you", "id"), "d: V5(you, id)");
    let certificate = Certificate { header, votes: Vec::new() };
    assert_eq!(certificate.debug_text("d", "me", "id"), "d: C5(me, id)");
}

#[test]
fn an_empty_batch_passes() {
    for n in 0..4u8 {
        assert!(Signature::verify_batch(&Digest([n; 32]), &Vec::new()));
    }
    let mut committee = committee();
    committee.quorum_threshold = 0;
    assert!(certificate(&[]).verify(&committee).is_ok());
}
