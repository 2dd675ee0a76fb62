//! What the ids of messages cover, byte by byte, and which messages keep the rules.
use vstd::bytes::{spec_u32_to_le_bytes, spec_u64_to_le_bytes};
use vstd::prelude::*;

use crate::committee::{Committee, WorkerId};
use crate::crypto::{
    bytes_below, digest_of, ed25519_accepts, ed25519_batch_accepts, first_difference, key_decodes,
    signature_bytes, signature_decodes, vote_decodes, votes_accepted, zero_digest, Digest, PublicKey,
    Signature,
};
use crate::error::DagError;
use crate::keys::{ordered, Key};
use crate::messages::{
    digests_bytes, payload_bytes, voters, votes_weight, CertificateView, HeaderView, Vote,
};
use crate::stakes::{lemma_total_insert, stake_in, total_stake};

verus! {

/// Where the bytes of a payload stand: each batch takes 32 bytes and its worker four.
proof fn lemma_payload_bytes(keys: Seq<Digest>, payload: Map<Digest, WorkerId>)
    ensures
        payload_bytes(keys, payload).len() == 36 * keys.len(),
        forall|i: int|
            0 <= i < keys.len() ==> payload_bytes(keys, payload).subrange(36 * i, 36 * i + 32)
                == (#[trigger] keys[i]).0@ && payload_bytes(keys, payload).subrange(
                36 * i + 32,
                36 * i + 36,
            ) == spec_u32_to_le_bytes(payload[keys[i]]),
    decreases keys.len(),
{
    vstd::bytes::lemma_auto_spec_u32_to_from_le_bytes();
    if keys.len() > 0 {
        let rest = keys.drop_last();
        let bytes = payload_bytes(keys, payload);
        let head = payload_bytes(rest, payload);
        lemma_payload_bytes(rest, payload);
        assert forall|i: int| 0 <= i < keys.len() implies bytes.subrange(36 * i, 36 * i + 32) == (
        #[trigger] keys[i]).0@ && bytes.subrange(36 * i + 32, 36 * i + 36) == spec_u32_to_le_bytes(
            payload[keys[i]],
        ) by {
            if i < rest.len() {
                assert(rest[i] == keys[i]);
                assert(bytes.subrange(36 * i, 36 * i + 32) =~= head.subrange(36 * i, 36 * i + 32));
                assert(bytes.subrange(36 * i + 32, 36 * i + 36) =~= head.subrange(
                    36 * i + 32,
                    36 * i + 36,
                ));
            } else {
                assert(bytes.subrange(36 * i, 36 * i + 32) =~= keys[i].0@);
                assert(bytes.subrange(36 * i + 32, 36 * i + 36) =~= spec_u32_to_le_bytes(
                    payload[keys[i]],
                ));
            }
        }
    }
}

/// Where the bytes of a list of digests stand: each takes 32 bytes.
proof fn lemma_digests_bytes(list: Seq<Digest>)
    ensures
        digests_bytes(list).len() == 32 * list.len(),
        forall|i: int|
            0 <= i < list.len() ==> digests_bytes(list).subrange(32 * i, 32 * i + 32) == (
            #[trigger] list[i]).0@,
    decreases list.len(),
{
    if list.len() > 0 {
        let rest = list.drop_last();
        let bytes = digests_bytes(list);
        let head = digests_bytes(rest);
        lemma_digests_bytes(rest);
        assert forall|i: int| 0 <= i < list.len() implies bytes.subrange(32 * i, 32 * i + 32) == (
        #[trigger] list[i]).0@ by {
            if i < rest.len() {
                assert(rest[i] == list[i]);
                assert(bytes.subrange(32 * i, 32 * i + 32) =~= head.subrange(32 * i, 32 * i + 32));
            } else {
                assert(bytes.subrange(32 * i, 32 * i + 32) =~= list[i].0@);
            }
        }
    }
}

/// The id of a header is the digest of these bytes, one after the other: the author,
/// the round, each batch of the payload in increasing order with its worker, and each parent in
/// increasing order.
pub proof fn lemma_header_bytes(h: HeaderView)
    ensures
        ({
            let m = h.message();
            let batches = ordered(h.payload.dom());
            let parents = ordered(h.parents);
            let n = 40 + 36 * batches.len();
            &&& m.len() == n + 32 * parents.len()
            &&& m.subrange(0, 32) == h.author.0@
            &&& m.subrange(32, 40) == spec_u64_to_le_bytes(h.round)
            &&& forall|i: int|
                0 <= i < batches.len() ==> m.subrange(40 + 36 * i, 72 + 36 * i) == (
                #[trigger] batches[i]).0@ && m.subrange(72 + 36 * i, 76 + 36 * i)
                    == spec_u32_to_le_bytes(h.payload[batches[i]])
            &&& forall|i: int|
                0 <= i < parents.len() ==> m.subrange(n + 32 * i, n + 32 + 32 * i) == (
                #[trigger] parents[i]).0@
            &&& h.digest() == digest_of(m)
        }),
{
    vstd::bytes::lemma_auto_spec_u64_to_from_le_bytes();
    let m = h.message();
    let batches = ordered(h.payload.dom());
    let parents = ordered(h.parents);
    let n = 40 + 36 * batches.len();
    let middle = payload_bytes(batches, h.payload);
    let tail = digests_bytes(parents);
    lemma_payload_bytes(batches, h.payload);
    lemma_digests_bytes(parents);
    assert(m.subrange(0, 32) =~= h.author.0@);
    assert(m.subrange(32, 40) =~= spec_u64_to_le_bytes(h.round));
    assert forall|i: int| 0 <= i < batches.len() implies m.subrange(40 + 36 * i, 72 + 36 * i) == (
    #[trigger] batches[i]).0@ && m.subrange(72 + 36 * i, 76 + 36 * i) == spec_u32_to_le_bytes(
        h.payload[batches[i]],
    ) by {
        assert(m.subrange(40 + 36 * i, 72 + 36 * i) =~= middle.subrange(36 * i, 36 * i + 32));
        assert(m.subrange(72 + 36 * i, 76 + 36 * i) =~= middle.subrange(36 * i + 32, 36 * i + 36));
    }
    assert forall|i: int| 0 <= i < parents.len() implies m.subrange(n + 32 * i, n + 32 + 32 * i)
        == (#[trigger] parents[i]).0@ by {
        assert(m.subrange(n + 32 * i, n + 32 + 32 * i) =~= tail.subrange(32 * i, 32 * i + 32));
    }
}

/// A vote and a certificate for a header have as their digest that of the id of the header, its round
/// and its author, one after the other, whoever votes.
pub proof fn lemma_endorsement_bytes(vote: Vote, c: CertificateView)
    ensures
        vote.spec_digest() == digest_of(
            vote.id.0@ + spec_u64_to_le_bytes(vote.round) + vote.origin.0@,
        ),
        c.digest() == digest_of(
            c.header.id.0@ + spec_u64_to_le_bytes(c.header.round) + c.header.author.0@,
        ),
{
}

/// Every worker named by a payload is run by its author.
pub open spec fn runs_workers(committee: &Committee, h: HeaderView) -> bool {
    forall|batch: Digest| #[trigger]
        h.payload.contains_key(batch) ==> committee.authorities@.contains_key(h.author)
            && committee.authorities@[h.author].workers@.contains(h.payload[batch])
}

/// Which headers keep the rules: those with the right id, of an author with stake that runs the
/// workers named, with a valid signature of the id. The first of these that fails gives the error.
pub proof fn lemma_header_rules(h: HeaderView, committee: &Committee, signature_valid: bool)
    ensures
        h.verdict(committee, signature_valid) == if h.id != h.digest() {
            Err::<(), DagError>(DagError::InvalidHeaderId)
        } else if stake_in(committee, h.author) == 0 {
            Err(DagError::UnknownAuthority(h.author))
        } else if !runs_workers(committee, h) {
            Err(DagError::MalformedHeader(h.id))
        } else if !signature_valid {
            Err(DagError::InvalidSignature)
        } else {
            Ok(())
        },
        h.is_signed() == ed25519_accepts(h.author.0@, h.id.0@, signature_bytes(h.signature)),
{
    if !runs_workers(committee, h) {
        let batch = choose|batch: Digest| #[trigger]
            h.payload.contains_key(batch) && !(committee.authorities@.contains_key(h.author)
                && committee.authorities@[h.author].workers@.contains(h.payload[batch]));
        assert(h.payload.contains_key(batch) && !committee.has_worker(h.author, h.payload[batch]));
    }
}

/// Which votes keep the rules: those of an author with stake, with a valid signature by the author of
/// the digest that names the header.
pub proof fn lemma_vote_rules(vote: Vote, committee: &Committee, signature_valid: bool)
    ensures
        vote.verdict(committee, signature_valid) == if stake_in(committee, vote.author) == 0 {
            Err::<(), DagError>(DagError::UnknownAuthority(vote.author))
        } else if !signature_valid {
            Err(DagError::InvalidSignature)
        } else {
            Ok(())
        },
        vote.is_signed() == ed25519_accepts(
            vote.author.0@,
            vote.spec_digest().0@,
            signature_bytes(vote.signature),
        ),
{
}

/// The authors of a list of pairs.
pub open spec fn names_of(votes: Seq<(PublicKey, Signature)>) -> Set<PublicKey> {
    Set::new(|a: PublicKey| exists|i: int| 0 <= i < votes.len() && (#[trigger] votes[i]).0 == a)
}

/// A vote of a list is by an author that comes before it in the list.
pub open spec fn is_repeated(votes: Seq<(PublicKey, Signature)>, i: int) -> bool {
    exists|j: int| 0 <= j < i && (#[trigger] votes[j]).0 == votes[i].0
}

/// A vote of a list breaks the rules: its author comes before it in the list, or has no stake.
pub open spec fn is_bad_vote(
    votes: Seq<(PublicKey, Signature)>,
    committee: &Committee,
    i: int,
) -> bool {
    is_repeated(votes, i) || stake_in(committee, votes[i].0) == 0
}

/// What a list of votes weighs: the stake of its authors, unless a vote breaks the rules.
proof fn lemma_votes_weigh(votes: Seq<(PublicKey, Signature)>, committee: &Committee)
    ensures
        match votes_weight(votes, committee) {
            Ok(weight) => weight == total_stake(committee, names_of(votes)) && names_of(
                votes,
            ).finite() && forall|i: int|
                0 <= i < votes.len() ==> !#[trigger] is_bad_vote(votes, committee, i),
            Err(e) => exists|i: int|
                0 <= i < votes.len() && #[trigger] is_bad_vote(votes, committee, i) && e
                    == if is_repeated(votes, i) {
                    DagError::AuthorityReuse(votes[i].0)
                } else {
                    DagError::UnknownAuthority(votes[i].0)
                } && forall|j: int| 0 <= j < i ==> !#[trigger] is_bad_vote(votes, committee, j),
        },
    decreases votes.len(),
{
    if votes.len() == 0 {
        assert(names_of(votes) =~= Set::empty());
    } else {
        let rest = votes.drop_last();
        let n = votes.len() - 1;
        let name = votes.last().0;
        lemma_votes_weigh(rest, committee);
        assert(votes[n].0 == name);
        assert forall|i: int| 0 <= i < n implies is_repeated(rest, i) == is_repeated(votes, i)
            && is_bad_vote(rest, committee, i) == #[trigger] is_bad_vote(votes, committee, i)
            && rest[i] == votes[i] by {
            if is_repeated(rest, i) {
                let j = choose|j: int| 0 <= j < i && (#[trigger] rest[j]).0 == rest[i].0;
                assert(votes[j].0 == votes[i].0);
            }
            if is_repeated(votes, i) {
                let j = choose|j: int| 0 <= j < i && (#[trigger] votes[j]).0 == votes[i].0;
                assert(rest[j].0 == rest[i].0);
            }
        }
        let names = rest.map_values(|v: (PublicKey, Signature)| v.0);
        assert(voters(rest).contains(name) == is_repeated(votes, n)) by {
            if voters(rest).contains(name) {
                let j = choose|j: int| 0 <= j < names.len() && names[j] == name;
                assert(votes[j].0 == votes[n].0);
            }
            if is_repeated(votes, n) {
                let j = choose|j: int| 0 <= j < n && (#[trigger] votes[j]).0 == votes[n].0;
                assert(names[j] == name);
                assert(names.contains(name));
            }
        }
        assert(names_of(rest).contains(name) == is_repeated(votes, n)) by {
            if names_of(rest).contains(name) {
                let j = choose|j: int| 0 <= j < rest.len() && (#[trigger] rest[j]).0 == name;
                assert(votes[j].0 == votes[n].0);
            }
            if is_repeated(votes, n) {
                let j = choose|j: int| 0 <= j < n && (#[trigger] votes[j]).0 == votes[n].0;
                assert(rest[j].0 == name);
            }
        }
        match votes_weight(rest, committee) {
            Ok(weight) => {
                if !is_bad_vote(votes, committee, n) {
                    assert(names_of(votes) =~= names_of(rest).insert(name)) by {
                        assert forall|a: PublicKey| names_of(votes).contains(a) implies names_of(
                            rest,
                        ).insert(name).contains(a) by {
                            let i = choose|i: int|
                                0 <= i < votes.len() && (#[trigger] votes[i]).0 == a;
                            if i < n {
                                assert(rest[i].0 == a);
                            }
                        }
                        assert forall|a: PublicKey| names_of(rest).insert(name).contains(
                            a,
                        ) implies names_of(votes).contains(a) by {
                            if a == name {
                                assert(votes[n].0 == a);
                            } else {
                                let i = choose|i: int|
                                    0 <= i < rest.len() && (#[trigger] rest[i]).0 == a;
                                assert(votes[i].0 == a);
                            }
                        }
                    }
                    lemma_total_insert(committee, names_of(rest), name);
                }
            },
            Err(e) => {
                let i = choose|i: int|
                    0 <= i < rest.len() && #[trigger] is_bad_vote(rest, committee, i) && e
                        == if is_repeated(rest, i) {
                        DagError::AuthorityReuse(rest[i].0)
                    } else {
                        DagError::UnknownAuthority(rest[i].0)
                    } && forall|j: int| 0 <= j < i ==> !#[trigger] is_bad_vote(rest, committee, j);
                assert(is_bad_vote(votes, committee, i));
                assert forall|j: int| 0 <= j < i implies !#[trigger] is_bad_vote(
                    votes,
                    committee,
                    j,
                ) by {
                    assert(!is_bad_vote(rest, committee, j));
                }
            },
        }
    }
}

/// A certificate stands for the genesis header of a member.
pub open spec fn is_member_genesis(c: CertificateView, committee: &Committee) -> bool {
    &&& committee.authorities@.contains_key(c.header.author)
    &&& c.header.round == 0
    &&& c.header.id == zero_digest()
}

/// Which certificates keep the rules: those of the genesis of a member; and those whose header keeps
/// the rules, whose votes are by distinct authors with stake that together have a quorum, and are
/// validly signed. A header that does not gives its error, then the first bad vote, then the lack of a
/// quorum, then the signatures.
pub proof fn lemma_certificate_rules(c: CertificateView, committee: &Committee, votes_valid: bool)
    ensures
        ({
            let r = c.verdict(committee, votes_valid);
            let header = c.header.verdict(committee, c.header.is_signed());
            let bad = exists|i: int|
                0 <= i < c.votes.len() && #[trigger] is_bad_vote(c.votes, committee, i);
            if is_member_genesis(c, committee) {
                r is Ok
            } else if header is Err {
                r == header
            } else if bad {
                exists|i: int|
                    0 <= i < c.votes.len() && #[trigger] is_bad_vote(c.votes, committee, i) && (
                    forall|j: int|
                        0 <= j < i ==> !#[trigger] is_bad_vote(c.votes, committee, j)) && r
                        == Err::<(), DagError>(
                        if is_repeated(c.votes, i) {
                            DagError::AuthorityReuse(c.votes[i].0)
                        } else {
                            DagError::UnknownAuthority(c.votes[i].0)
                        },
                    )
            } else if total_stake(committee, names_of(c.votes)) < committee.quorum_threshold {
                r == Err::<(), DagError>(DagError::CertificateRequiresQuorum)
            } else if !votes_valid {
                r == Err::<(), DagError>(DagError::InvalidSignature)
            } else {
                r is Ok
            }
        }),
{
    lemma_votes_weigh(c.votes, committee);
}

/// Keys and digests are ordered by their bytes: the one with the lower byte at the first place where
/// they differ comes first.
pub proof fn lemma_byte_order(a: Digest, b: Digest, x: PublicKey, y: PublicKey)
    ensures
        a.below(b) <==> exists|i: int| #[trigger] is_lower_at(a.0@, b.0@, i),
        x.below(y) <==> exists|i: int| #[trigger] is_lower_at(x.0@, y.0@, i),
{
    lemma_lower(a.0@, b.0@);
    lemma_lower(x.0@, y.0@);
}

/// Two byte strings agree before a place, where the first has the lower byte.
pub open spec fn is_lower_at(a: Seq<u8>, b: Seq<u8>, i: int) -> bool {
    &&& 0 <= i < a.len() && i < b.len()
    &&& a[i] < b[i]
    &&& forall|j: int| 0 <= j < i ==> a[j] == b[j]
}

/// The order of byte strings, place by place.
proof fn lemma_lower(a: Seq<u8>, b: Seq<u8>)
    ensures
        bytes_below(a, b) <==> exists|i: int| #[trigger] is_lower_at(a, b, i),
{
    if bytes_below(a, b) {
        let i = choose|i: int| #[trigger] first_difference(a, b, i) && a[i] < b[i];
        assert forall|j: int| 0 <= j < i implies a[j] == b[j] by {
            assert(a.take(i)[j] == b.take(i)[j]);
        }
        assert(is_lower_at(a, b, i));
    }
    if exists|i: int| #[trigger] is_lower_at(a, b, i) {
        let i = choose|i: int| #[trigger] is_lower_at(a, b, i);
        assert(a.take(i) =~= b.take(i));
        assert(first_difference(a, b, i) && a[i] < b[i]);
    }
}

/// What is asked of a batch of votes: every key and every signature decodes, and the batch check takes
/// the signatures of the digest under the keys, each with the other of its vote, in the order of the
/// votes.
pub proof fn lemma_batch(digest: Digest, votes: Seq<(PublicKey, Signature)>, draw: Seq<u8>)
    ensures
        votes_accepted(digest, votes, draw) <==> (forall|i: int|
            0 <= i < votes.len() ==> key_decodes((#[trigger] votes[i]).0.0@) && signature_decodes(
                votes[i].1.part1@ + votes[i].1.part2@,
            )) && ed25519_batch_accepts(
            digest.0@,
            Seq::new(votes.len(), |i: int| votes[i].1.part1@ + votes[i].1.part2@),
            Seq::new(votes.len(), |i: int| votes[i].0.0@),
            draw,
        ),
{
    let signatures = votes.map_values(|vote: (PublicKey, Signature)| signature_bytes(vote.1));
    let keys = votes.map_values(|vote: (PublicKey, Signature)| vote.0.0@);
    assert(signatures =~= Seq::new(votes.len(), |i: int| votes[i].1.part1@ + votes[i].1.part2@));
    assert(keys =~= Seq::new(votes.len(), |i: int| votes[i].0.0@));
    if forall|i: int| 0 <= i < votes.len() ==> #[trigger] vote_decodes(votes[i]) {
        assert forall|i: int| 0 <= i < votes.len() implies key_decodes((#[trigger] votes[i]).0.0@)
            && signature_decodes(votes[i].1.part1@ + votes[i].1.part2@) by {
            assert(vote_decodes(votes[i]));
        }
    }
}

/// The genesis certificate of a member is of round zero, with the id of zeros, without parents, batches
/// and votes; two certificates are the same if they name the same id, round and author.
pub proof fn lemma_genesis(name: PublicKey, c: CertificateView, d: CertificateView)
    ensures
        ({
            let g = CertificateView::genesis(name);
            &&& g.header.author == name
            &&& g.header.round == 0
            &&& g.header.id == zero_digest()
            &&& g.header.parents == Set::<Digest>::empty()
            &&& g.header.payload == Map::<Digest, WorkerId>::empty()
            &&& g.votes.len() == 0
        }),
        c.names_same(d) <==> c.header.id == d.header.id && c.header.round == d.header.round
            && c.header.author == d.header.author,
{
}

} // verus!
