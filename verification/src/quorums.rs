//! When votes make a certificate and certificates make parents, told by the stake of their authors.
use vstd::prelude::*;

use crate::aggregators::{CertificatesView, VotesView};
use crate::committee::{Committee, RoundRule};
use crate::crypto::{Digest, PublicKey, Signature};
use crate::error::DagError;
use crate::keys::ordered;
use crate::messages::{CertificateView, HeaderView, Vote};
use crate::stakes::{lemma_total_insert, stake_in, total_stake};

verus! {

/// The authors of a list of votes.
pub open spec fn authors_of(votes: Seq<Vote>) -> Set<PublicKey> {
    Set::new(
        |a: PublicKey| exists|i: int| 0 <= i < votes.len() && (#[trigger] votes[i]).author == a,
    )
}

/// What one vote does: a second vote of an author is an error and changes nothing; any other is added
/// with the stake of its author, and makes a certificate of all votes exactly if the stake then
/// reaches the quorum, after which the count begins again.
pub proof fn lemma_vote_counts(
    v: VotesView,
    vote: Vote,
    committee: &Committee,
    header: HeaderView,
)
    ensures
        ({
            let (after, result) = v.appended(vote, committee, header);
            let weight = v.weight + stake_in(committee, vote.author);
            let votes = v.votes.push((vote.author, vote.signature));
            if v.used.contains(vote.author) {
                after == v && result == Err::<Option<CertificateView>, DagError>(
                    DagError::AuthorityReuse(vote.author),
                )
            } else {
                &&& after.used == v.used.insert(vote.author)
                &&& after.votes == votes
                &&& weight < committee.quorum_threshold ==> after.weight == weight && result == Ok::<
                    Option<CertificateView>,
                    DagError,
                >(None)
                &&& weight >= committee.quorum_threshold ==> after.weight == 0 && result == Ok::<
                    Option<CertificateView>,
                    DagError,
                >(Some(CertificateView { header, votes }))
            }
        }),
{
}

/// What has been collected from a list of votes: those who have voted are its authors, and until a
/// certificate is made the weight is their stake.
proof fn lemma_votes_collected(votes: Seq<Vote>, committee: &Committee, header: HeaderView)
    requires
        committee.quorum_threshold > 0,
    ensures
        ({
            let (v, made) = VotesView::empty().appended_all(votes, committee, header);
            &&& v.used == authors_of(votes)
            &&& v.used.finite()
            &&& made.len() == 0 ==> v.weight == total_stake(committee, v.used) && v.weight
                < committee.quorum_threshold
            &&& made.len() > 0 ==> total_stake(committee, v.used) >= committee.quorum_threshold
        }),
    decreases votes.len(),
{
    let (v, made) = VotesView::empty().appended_all(votes, committee, header);
    if votes.len() == 0 {
        assert(v.used =~= authors_of(votes));
    } else {
        let rest = votes.drop_last();
        let vote = votes.last();
        lemma_votes_collected(rest, committee, header);
        let before = VotesView::empty().appended_all(rest, committee, header).0;
        lemma_vote_counts(before, vote, committee, header);
        assert(votes[votes.len() - 1] == vote);
        assert(authors_of(votes) =~= authors_of(rest).insert(vote.author)) by {
            assert forall|a: PublicKey| authors_of(votes).contains(a) implies authors_of(
                rest,
            ).insert(vote.author).contains(a) by {
                let i = choose|i: int| 0 <= i < votes.len() && (#[trigger] votes[i]).author == a;
                if i < rest.len() {
                    assert(rest[i].author == a);
                }
            }
            assert forall|a: PublicKey| authors_of(rest).insert(vote.author).contains(a) implies authors_of(
                votes,
            ).contains(a) by {
                if a != vote.author {
                    let i = choose|i: int| 0 <= i < rest.len() && (#[trigger] rest[i]).author == a;
                    assert(votes[i].author == a);
                }
            }
        }
        if before.used.contains(vote.author) {
            assert(before.used.insert(vote.author) =~= before.used);
        } else {
            lemma_total_insert(committee, before.used, vote.author);
        }
    }
}

/// A quorum suffices, and nothing less: a list of votes has made a certificate exactly if its authors
/// together have the stake of a quorum, whoever else has not voted.
pub proof fn lemma_quorum_suffices(votes: Seq<Vote>, committee: &Committee, header: HeaderView)
    requires
        committee.quorum_threshold > 0,
    ensures
        ({
            let (v, made) = VotesView::empty().appended_all(votes, committee, header);
            &&& made.len() > 0 <==> total_stake(committee, authors_of(votes))
                >= committee.quorum_threshold
            &&& made.len() == 0 ==> v.weight == total_stake(committee, authors_of(votes))
        }),
{
    lemma_votes_collected(votes, committee, header);
}

/// A vote is the first of its author in a list.
pub open spec fn is_first_vote(votes: Seq<Vote>, i: int) -> bool {
    forall|j: int| 0 <= j < i ==> (#[trigger] votes[j]).author != votes[i].author
}

/// A pair of an author and a signature is the first vote of that author in a list.
pub open spec fn is_cast(votes: Seq<Vote>, pair: (PublicKey, Signature)) -> bool {
    exists|i: int|
        0 <= i < votes.len() && #[trigger] is_first_vote(votes, i) && pair == (
            votes[i].author,
            votes[i].signature,
        )
}

/// Nothing but votes comes into a certificate, and each vote that counts does: the collected pairs are
/// the first votes of the authors of the list, with their signatures.
pub proof fn lemma_votes_kept(votes: Seq<Vote>, committee: &Committee, header: HeaderView)
    requires
        committee.quorum_threshold > 0,
    ensures
        ({
            let pairs = VotesView::empty().appended_all(votes, committee, header).0.votes;
            &&& forall|k: int| 0 <= k < pairs.len() ==> is_cast(votes, #[trigger] pairs[k])
            &&& forall|i: int|
                0 <= i < votes.len() && #[trigger] is_first_vote(votes, i) ==> pairs.contains(
                    (votes[i].author, votes[i].signature),
                )
        }),
    decreases votes.len(),
{
    if votes.len() > 0 {
        let rest = votes.drop_last();
        let vote = votes.last();
        let n = votes.len() - 1;
        lemma_votes_kept(rest, committee, header);
        lemma_votes_collected(rest, committee, header);
        let before = VotesView::empty().appended_all(rest, committee, header).0;
        let pairs = VotesView::empty().appended_all(votes, committee, header).0.votes;
        lemma_vote_counts(before, vote, committee, header);
        assert(votes[n] == vote);
        assert(is_first_vote(votes, n) == !before.used.contains(vote.author)) by {
            if before.used.contains(vote.author) {
                let j = choose|j: int|
                    0 <= j < rest.len() && (#[trigger] rest[j]).author == vote.author;
                assert(votes[j].author == vote.author);
            } else {
                assert forall|j: int| 0 <= j < n implies (#[trigger] votes[j]).author
                    != vote.author by {
                    assert(rest[j] == votes[j]);
                }
            }
        }
        assert forall|i: int| 0 <= i < n implies is_first_vote(rest, i) == #[trigger] is_first_vote(
            votes,
            i,
        ) && rest[i] == votes[i] by {
            assert forall|j: int| 0 <= j < i implies rest[j] == votes[j] by {}
            if is_first_vote(rest, i) {
                assert forall|j: int| 0 <= j < i implies (#[trigger] votes[j]).author
                    != votes[i].author by {
                    assert(rest[j].author != rest[i].author);
                }
            }
            if is_first_vote(votes, i) {
                assert forall|j: int| 0 <= j < i implies (#[trigger] rest[j]).author
                    != rest[i].author by {
                    assert(votes[j].author != votes[i].author);
                }
            }
        }
        assert forall|k: int| 0 <= k < pairs.len() implies is_cast(votes, #[trigger] pairs[k]) by {
            if k < before.votes.len() {
                assert(is_cast(rest, before.votes[k]));
                let i = choose|i: int|
                    0 <= i < rest.len() && #[trigger] is_first_vote(rest, i) && before.votes[k] == (
                        rest[i].author,
                        rest[i].signature,
                    );
                assert(is_first_vote(votes, i));
            } else {
                assert(is_first_vote(votes, n));
            }
        }
        assert forall|i: int| 0 <= i < votes.len() && #[trigger] is_first_vote(
            votes,
            i,
        ) implies pairs.contains((votes[i].author, votes[i].signature)) by {
            let pair: (PublicKey, Signature) = (votes[i].author, votes[i].signature);
            if i < n {
                assert(is_first_vote(rest, i));
                let k = choose|k: int| 0 <= k < before.votes.len() && before.votes[k] == pair;
                assert(pairs[k] == pair);
            } else {
                assert(pairs[before.votes.len() as int] == pair);
            }
        }
    }
}

/// What a header hands on: what it has merged, or else what it carries.
pub open spec fn handed_on(merged: Set<Digest>, carried: Set<Digest>) -> Set<Digest> {
    if exists|d: Digest| merged.contains(d) {
        merged
    } else {
        carried
    }
}

/// What one certificate does to those collected for a header of the round after `e`. One of `e` counts
/// once for its author, with its stake and with what it hands on; one of an earlier round of the same
/// solid step counts with what it hands on, and one of an earlier step of the same wave with its wave
/// vertices alone; any other changes nothing. The parents are handed on exactly if they then suffice:
/// at the end of a solid step by the number of step vertices, and otherwise by the stake.
pub proof fn lemma_certificate_counts(
    v: CertificatesView,
    c: CertificateView,
    committee: &Committee,
    rule: RoundRule,
)
    requires
        committee.solid_step_length > 0,
        committee.solid_wave_length > 0,
    ensures
        ({
            let (after, handed) = v.appended(c, committee, rule);
            let e = v.expected_round as int;
            let r = c.header.round as int;
            let author = c.header.author;
            let step_start = e - e % (committee.solid_step_length as int);
            let wave_start = e - e % (committee.solid_wave_length as int);
            let step = handed_on(c.header.solid_step_vertices_merged, c.header.solid_step_vertices);
            let wave = handed_on(c.header.solid_wave_vertices_merged, c.header.solid_wave_vertices);
            let strong = r == e;
            let in_step = step_start <= r < e;
            let in_wave = wave_start <= r < step_start;
            let enough = if rule.is_solid_step {
                after.solid_step_union.len() >= rule.processing_threshold
            } else {
                after.weight >= rule.processing_threshold
            };
            if !(strong && !v.used.contains(author)) && !in_step && !(in_wave && !strong) {
                after == v && handed is None
            } else {
                &&& after.expected_round == v.expected_round
                &&& after.certificates == v.certificates.push(c.digest())
                &&& after.weak_certificates == if strong {
                    v.weak_certificates
                } else {
                    v.weak_certificates.push(c.digest())
                }
                &&& after.weight == if strong {
                    v.weight + stake_in(committee, author)
                } else {
                    v.weight
                }
                &&& after.used == if strong {
                    v.used.insert(author)
                } else {
                    v.used
                }
                &&& after.solid_wave_union == v.solid_wave_union.union(wave)
                &&& after.solid_step_union == if strong || in_step {
                    v.solid_step_union.union(step)
                } else {
                    v.solid_step_union
                }
                &&& forall|d: Digest| #[trigger]
                    after.solid_step_sources.contains_key(d) <==> v.solid_step_sources.contains_key(
                        d,
                    ) || ((strong || in_step) && step.contains(d))
                &&& forall|d: Digest| #[trigger]
                    after.solid_step_sources.contains_key(d) ==> ({
                        let known = v.solid_step_sources.contains_key(d);
                        let source = after.solid_step_sources[d];
                        &&& source.direct_weak <==> (known
                            && v.solid_step_sources[d].direct_weak) || (in_step && !strong
                            && step.contains(d))
                        &&& source.relay_merged <==> (known
                            && v.solid_step_sources[d].relay_merged) || (strong && step.contains(d))
                    })
                &&& after.has_quorum == enough
                &&& after.last_union_set == if rule.is_solid_step {
                    Some(ordered(after.solid_step_union))
                } else {
                    v.last_union_set
                }
                &&& handed is Some <==> enough
                &&& handed matches Some(p) ==> p.parents == after.certificates
                    && p.solid_step_union == after.solid_step_union && p.solid_wave_union
                    == after.solid_wave_union && p.solid_step_sources == after.solid_step_sources
            }
        }),
{
    let step = c.header.solid_step_vertices_merged;
    let wave = c.header.solid_wave_vertices_merged;
    if exists|d: Digest| step.contains(d) {
        let d = choose|d: Digest| step.contains(d);
        assert(!Set::<Digest>::empty().contains(d));
    } else {
        assert(step =~= Set::empty());
    }
    if exists|d: Digest| wave.contains(d) {
        let d = choose|d: Digest| wave.contains(d);
        assert(!Set::<Digest>::empty().contains(d));
    } else {
        assert(wave =~= Set::empty());
    }
}

/// The weight of what has been collected for a header is the stake of the distinct authors of the
/// certificates of the expected round, whatever else has arrived.
pub proof fn lemma_weight_of_authors(
    expected: crate::committee::Round,
    committee: &Committee,
    rule: RoundRule,
    arrivals: Seq<CertificateView>,
)
    requires
        committee.solid_step_length > 0,
        committee.solid_wave_length > 0,
    ensures
        ({
            let v = crate::handover::collected(expected, committee, rule, arrivals).0;
            let authors = Set::new(
                |a: PublicKey|
                    exists|i: int|
                        0 <= i < arrivals.len() && (#[trigger] arrivals[i]).header.round == expected
                            && arrivals[i].header.author == a,
            );
            &&& v.expected_round == expected
            &&& authors.finite()
            &&& v.used == authors
            &&& v.weight == total_stake(committee, authors)
        }),
    decreases arrivals.len(),
{
    let v = crate::handover::collected(expected, committee, rule, arrivals).0;
    let authors = Set::new(
        |a: PublicKey|
            exists|i: int|
                0 <= i < arrivals.len() && (#[trigger] arrivals[i]).header.round == expected
                    && arrivals[i].header.author == a,
    );
    if arrivals.len() == 0 {
        assert(authors =~= Set::empty());
        assert(v.used =~= authors);
    } else {
        let rest = arrivals.drop_last();
        let c = arrivals.last();
        let n = arrivals.len() - 1;
        lemma_weight_of_authors(expected, committee, rule, rest);
        let before = crate::handover::collected(expected, committee, rule, rest).0;
        lemma_certificate_counts(before, c, committee, rule);
        assert(arrivals[n] == c);
        let strong = c.header.round == expected;
        let more = if strong {
            before.used.insert(c.header.author)
        } else {
            before.used
        };
        assert(authors =~= more) by {
            assert forall|a: PublicKey| authors.contains(a) implies more.contains(a) by {
                let i = choose|i: int|
                    0 <= i < arrivals.len() && (#[trigger] arrivals[i]).header.round == expected
                        && arrivals[i].header.author == a;
                if i < n {
                    assert(rest[i].header.author == a);
                }
            }
            assert forall|a: PublicKey| more.contains(a) implies authors.contains(a) by {
                if strong && a == c.header.author {
                    assert(arrivals[n].header.author == a);
                } else {
                    let i = choose|i: int|
                        0 <= i < rest.len() && (#[trigger] rest[i]).header.round == expected
                            && rest[i].header.author == a;
                    assert(arrivals[i].header.author == a);
                }
            }
        }
        if strong {
            if before.used.contains(c.header.author) {
                assert(more =~= before.used);
            } else {
                lemma_total_insert(committee, before.used, c.header.author);
            }
        }
        assert(v.used =~= authors);
    }
}

} // verus!
