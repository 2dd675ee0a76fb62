//! What a primary admits and what it keeps, told by the messages and the stake of their authors.
use vstd::prelude::*;

use crate::aggregators::{CertificatesView, VotesView};
use crate::committee::{Committee, Round, RoundRule};
use crate::crypto::{Digest, PublicKey};
use crate::error::DagError;
use crate::messages::{CertificateView, HeaderView, ProposalParentsView, Vote};
use crate::primary::{
    step_stake, step_union, CertificateAction, CoreView, HeaderAction,
    HeaderEventView,
};
use crate::stakes::stake_in;

verus! {

/// The stake of the certificates of a list that are of round `start` or later, each time one comes.
pub open spec fn stake_from(committee: &Committee, start: int, list: Seq<CertificateView>) -> nat
    decreases list.len(),
{
    if list.len() == 0 {
        0
    } else {
        let first = if list[0].header.round >= start {
            stake_in(committee, list[0].header.author)
        } else {
            0
        };
        first + stake_from(committee, start, list.skip(1))
    }
}

/// The vertices merged by the certificates of a list that are of round `start` or later.
pub open spec fn merged_from(start: int, list: Seq<CertificateView>) -> Set<Digest> {
    Set::new(
        |d: Digest|
            exists|i: int|
                0 <= i < list.len() && (#[trigger] list[i]).header.round >= start
                    && list[i].header.solid_step_vertices_merged.contains(d),
    )
}

/// Two lists together have the stake of both.
pub proof fn lemma_stake_from_join(
    committee: &Committee,
    start: int,
    a: Seq<CertificateView>,
    b: Seq<CertificateView>,
)
    ensures
        stake_from(committee, start, a + b) == stake_from(committee, start, a) + stake_from(
            committee,
            start,
            b,
        ),
    decreases a.len(),
{
    if a.len() == 0 {
        assert(a + b =~= b);
    } else {
        assert((a + b).skip(1) =~= a.skip(1) + b);
        lemma_stake_from_join(committee, start, a.skip(1), b);
    }
}

/// The start of the solid step, or of the wave, of the round before a header.
pub open spec fn window_start(round: Round, length: Round) -> int {
    (round - 1) - (round - 1) % (length as int)
}

/// The sums that the rules use are those over the list.
proof fn lemma_window_sums(round: Round, committee: &Committee, list: Seq<CertificateView>)
    requires
        round > 0,
    ensures
        ({
            let start = window_start(round, committee.solid_step_length);
            &&& step_stake(round, committee, list) == stake_from(committee, start, list)
            &&& step_union(round, committee, list) == merged_from(start, list)
        }),
    decreases list.len(),
{
    let start = window_start(round, committee.solid_step_length);
    if list.len() == 0 {
        assert(step_union(round, committee, list) =~= merged_from(start, list));
    } else {
        let rest = list.drop_last();
        let c = list.last();
        let n = list.len() - 1;
        lemma_window_sums(round, committee, rest);
        assert(list =~= rest + seq![c]);
        lemma_stake_from_join(committee, start, rest, seq![c]);
        assert(seq![c].skip(1) =~= seq![]);
        assert(stake_from(committee, start, seq![c].skip(1)) == 0);
        assert(list[n] == c);
        assert(step_union(round, committee, list) =~= merged_from(start, list)) by {
            assert forall|d: Digest| step_union(round, committee, list).contains(d) implies merged_from(
                start,
                list,
            ).contains(d) by {
                if merged_from(start, rest).contains(d) {
                    let i = choose|i: int|
                        0 <= i < rest.len() && (#[trigger] rest[i]).header.round >= start
                            && rest[i].header.solid_step_vertices_merged.contains(d);
                    assert(list[i] == rest[i]);
                } else {
                    assert(list[n].header.solid_step_vertices_merged.contains(d));
                }
            }
            assert forall|d: Digest| merged_from(start, list).contains(d) implies step_union(
                round,
                committee,
                list,
            ).contains(d) by {
                let i = choose|i: int|
                    0 <= i < list.len() && (#[trigger] list[i]).header.round >= start
                        && list[i].header.solid_step_vertices_merged.contains(d);
                if i < n {
                    assert(rest[i] == list[i]);
                    assert(merged_from(start, rest).contains(d));
                }
            }
        }
    }
}

/// What the parents of a header decide. Without parents it waits. A parent outside the rounds from the
/// start of the wave on and before the header makes it malformed. Otherwise only the parents from the
/// start of the solid step on count: at the end of a step the vertices that they have merged must be
/// as many as the rule asks for, and in any other round they must have the stake. Nothing is noted.
pub proof fn lemma_parents_admit(
    p: CoreView,
    header: HeaderView,
    parents: Seq<CertificateView>,
    rule: RoundRule,
)
    requires
        header.round > 0,
        p.committee.solid_step_length > 0,
        p.committee.solid_wave_length > 0,
    ensures
        ({
            let (after, result) = p.header_step(header, HeaderEventView::Parents { parents, rule });
            let wave_start = window_start(header.round, p.committee.solid_wave_length);
            let step_start = window_start(header.round, p.committee.solid_step_length);
            let outside = exists|i: int|
                0 <= i < parents.len() && ((#[trigger] parents[i]).header.round < wave_start
                    || parents[i].header.round >= header.round);
            &&& after == p
            &&& if parents.len() == 0 {
                result == Ok::<HeaderAction, DagError>(HeaderAction::Suspend)
            } else if outside {
                result == Err::<HeaderAction, DagError>(DagError::MalformedHeader(header.id))
            } else if (if rule.is_solid_step {
                merged_from(step_start, parents).len() >= rule.processing_threshold
            } else {
                stake_from(&p.committee, step_start, parents) >= rule.processing_threshold
            }) {
                result == Ok::<HeaderAction, DagError>(HeaderAction::GetPayload)
            } else {
                result == Err::<HeaderAction, DagError>(DagError::HeaderRequiresQuorum(header.id))
            }
        }),
{
    let wave_start = window_start(header.round, p.committee.solid_wave_length);
    let wave_length = p.committee.solid_wave_length;
    lemma_window_sums(header.round, &p.committee, parents);
    if exists|i: int|
        0 <= i < parents.len() && !crate::primary::in_wave(
            header.round,
            wave_length,
            #[trigger] parents[i],
        ) {
        let i = choose|i: int|
            0 <= i < parents.len() && !crate::primary::in_wave(
                header.round,
                wave_length,
                #[trigger] parents[i],
            );
        assert(parents[i].header.round < wave_start || parents[i].header.round >= header.round);
    }
    if exists|i: int|
        0 <= i < parents.len() && ((#[trigger] parents[i]).header.round < wave_start
            || parents[i].header.round >= header.round) {
        let i = choose|i: int|
            0 <= i < parents.len() && ((#[trigger] parents[i]).header.round < wave_start
                || parents[i].header.round >= header.round);
        assert(!crate::primary::in_wave(header.round, wave_length, parents[i]));
    }
}

/// A parent of the wave that is earlier than the solid step does not matter: with it or without it a
/// header that has other parents is decided in the same way.
pub proof fn lemma_early_parent_does_not_matter(
    p: CoreView,
    header: HeaderView,
    before: Seq<CertificateView>,
    c: CertificateView,
    after: Seq<CertificateView>,
    rule: RoundRule,
)
    requires
        header.round > 0,
        p.committee.solid_step_length > 0,
        p.committee.solid_wave_length > 0,
        before.len() + after.len() > 0,
        window_start(header.round, p.committee.solid_wave_length) <= c.header.round,
        c.header.round < window_start(header.round, p.committee.solid_step_length),
    ensures
        p.header_step(
            header,
            HeaderEventView::Parents { parents: before + seq![c] + after, rule },
        ) == p.header_step(header, HeaderEventView::Parents { parents: before + after, rule }),
{
    let with = before + seq![c] + after;
    let without = before + after;
    let committee = &p.committee;
    let wave_start = window_start(header.round, committee.solid_wave_length);
    let step_start = window_start(header.round, committee.solid_step_length);
    let n = before.len() as int;
    lemma_parents_admit(p, header, with, rule);
    lemma_parents_admit(p, header, without, rule);
    vstd::arithmetic::div_mod::lemma_mod_bound(
        header.round - 1,
        committee.solid_step_length as int,
    );
    lemma_stake_from_join(committee, step_start, before + seq![c], after);
    lemma_stake_from_join(committee, step_start, before, seq![c]);
    lemma_stake_from_join(committee, step_start, before, after);
    assert(seq![c].skip(1) =~= seq![]);
    assert(stake_from(committee, step_start, seq![c].skip(1)) == 0);
    assert forall|i: int| 0 <= i < without.len() implies #[trigger] without[i] == with[if i < n {
        i
    } else {
        i + 1
    }] by {}
    assert forall|i: int| 0 <= i < with.len() && i != n implies #[trigger] with[i] == without[if i
        < n {
        i
    } else {
        i - 1
    }] by {}
    assert(with[n] == c);
    let is_bad = |x: CertificateView|
        x.header.round < wave_start || x.header.round >= header.round;
    if exists|i: int| 0 <= i < with.len() && is_bad(#[trigger] with[i]) {
        let i = choose|i: int| 0 <= i < with.len() && is_bad(#[trigger] with[i]);
        assert(i != n);
        let j = if i < n {
            i
        } else {
            i - 1
        };
        assert(is_bad(without[j]));
    }
    if exists|i: int| 0 <= i < without.len() && is_bad(#[trigger] without[i]) {
        let i = choose|i: int| 0 <= i < without.len() && is_bad(#[trigger] without[i]);
        let j = if i < n {
            i
        } else {
            i + 1
        };
        assert(is_bad(with[j]));
    }
    assert((exists|i: int|
        0 <= i < with.len() && ((#[trigger] with[i]).header.round < wave_start
            || with[i].header.round >= header.round)) == (exists|i: int|
        0 <= i < without.len() && ((#[trigger] without[i]).header.round < wave_start
            || without[i].header.round >= header.round))) by {
        if exists|i: int|
            0 <= i < with.len() && ((#[trigger] with[i]).header.round < wave_start
                || with[i].header.round >= header.round) {
            let i = choose|i: int|
                0 <= i < with.len() && ((#[trigger] with[i]).header.round < wave_start
                    || with[i].header.round >= header.round);
            assert(is_bad(with[i]));
        }
        if exists|i: int|
            0 <= i < without.len() && ((#[trigger] without[i]).header.round < wave_start
                || without[i].header.round >= header.round) {
            let i = choose|i: int|
                0 <= i < without.len() && ((#[trigger] without[i]).header.round < wave_start
                    || without[i].header.round >= header.round);
            assert(is_bad(without[i]));
        }
    }
    assert(merged_from(step_start, with) =~= merged_from(step_start, without)) by {
        assert forall|d: Digest| merged_from(step_start, with).contains(d) implies merged_from(
            step_start,
            without,
        ).contains(d) by {
            let i = choose|i: int|
                0 <= i < with.len() && (#[trigger] with[i]).header.round >= step_start
                    && with[i].header.solid_step_vertices_merged.contains(d);
            let j = if i < n {
                i
            } else {
                i - 1
            };
            assert(i != n);
            assert(without[j] == with[i]);
        }
        assert forall|d: Digest| merged_from(step_start, without).contains(d) implies merged_from(
            step_start,
            with,
        ).contains(d) by {
            let i = choose|i: int|
                0 <= i < without.len() && (#[trigger] without[i]).header.round >= step_start
                    && without[i].header.solid_step_vertices_merged.contains(d);
            let j = if i < n {
                i
            } else {
                i + 1
            };
            assert(with[j] == without[i]);
        }
    }
}

/// A name is noted under a round.
pub open spec fn is_noted<T>(notes: Map<Round, Set<T>>, round: Round, name: T) -> bool {
    notes.contains_key(round) && notes[round].contains(name)
}

/// What happens to a header on its way. When it arrives it is noted as under way, and its parents are
/// looked for; without any it waits. It is stored once its payload is there. Once it is stored, its author gets the vote of
/// this primary if it has had none in the round, which is then noted; the vote names the header, its
/// round and its author, and is counted at home exactly if the header is the primary's own.
pub proof fn lemma_header_way(p: CoreView, header: HeaderView, rule: RoundRule, missing: bool)
    ensures
        ({
            let (q, r) = p.header_step(header, HeaderEventView::Arrived);
            &&& r == Ok::<HeaderAction, DagError>(HeaderAction::GetParents)
            &&& q == (CoreView { processing: q.processing, ..p })
            &&& forall|n: Round, d: Digest| #[trigger]
                is_noted(q.processing, n, d) <==> is_noted(p.processing, n, d) || (n == header.round
                    && d == header.id)
        }),
        p.header_step(header, HeaderEventView::Parents { parents: seq![], rule }) == (
            p,
            Ok::<HeaderAction, DagError>(HeaderAction::Suspend),
        ),
        p.header_step(header, HeaderEventView::Payload { missing }) == (
            p,
            Ok::<HeaderAction, DagError>(
                if missing {
                    HeaderAction::Suspend
                } else {
                    HeaderAction::Store
                },
            ),
        ),
        ({
            let (q, r) = p.header_step(header, HeaderEventView::Stored);
            if is_noted(p.last_voted, header.round, header.author) {
                q == p && r == Ok::<HeaderAction, DagError>(HeaderAction::Discard)
            } else {
                &&& q == (CoreView { last_voted: q.last_voted, ..p })
                &&& forall|n: Round, a: PublicKey| #[trigger]
                    is_noted(q.last_voted, n, a) <==> is_noted(p.last_voted, n, a) || (n
                        == header.round && a == header.author)
                &&& match r {
                    Ok(HeaderAction::CountVote(v)) => header.author == p.name && is_vote_for(
                        v,
                        header,
                        p.name,
                    ),
                    Ok(HeaderAction::SendVote(v)) => header.author != p.name && is_vote_for(
                        v,
                        header,
                        p.name,
                    ),
                    _ => false,
                }
            }
        }),
{
}

/// A vote names a header, its round and its author, and who has voted.
pub open spec fn is_vote_for(v: Vote, header: HeaderView, author: PublicKey) -> bool {
    v.id == header.id && v.round == header.round && v.origin == header.author && v.author == author
}

/// What a vote does. One for a header that does not wait for votes does nothing. A second one of an
/// author is an error and changes nothing that was collected. Any other adds its author's stake; the
/// one that brings the votes to the quorum makes the certificate of the header with all votes, and the
/// header waits no more; and no other header is touched.
pub proof fn lemma_vote_way(p: CoreView, vote: Vote)
    ensures
        ({
            let (q, r) = p.vote_step(vote);
            let known = p.votes_aggregators.contains_key(vote.id);
            let weight = if known {
                p.votes_aggregators[vote.id].weight
            } else {
                0
            };
            let pairs = if known {
                p.votes_aggregators[vote.id].votes
            } else {
                seq![]
            };
            let repeated = known && p.votes_aggregators[vote.id].used.contains(vote.author);
            let total = weight + stake_in(&p.committee, vote.author);
            if !p.pending_headers.contains_key(vote.id) {
                q == p && r == Ok::<Option<CertificateView>, DagError>(None)
            } else {
                &&& q == (CoreView {
                    pending_headers: q.pending_headers,
                    votes_aggregators: q.votes_aggregators,
                    ..p
                })
                &&& forall|d: Digest|
                    d != vote.id ==> #[trigger] q.votes_aggregators.contains_key(d)
                        == p.votes_aggregators.contains_key(d) && (
                    p.votes_aggregators.contains_key(d) ==> q.votes_aggregators[d]
                        == p.votes_aggregators[d])
                &&& repeated ==> q.pending_headers == p.pending_headers
                    && q.votes_aggregators[vote.id] == p.votes_aggregators[vote.id]
                    && q.votes_aggregators.contains_key(vote.id) && r == Err::<
                    Option<CertificateView>,
                    DagError,
                >(DagError::AuthorityReuse(vote.author))
                &&& !repeated && total < p.committee.quorum_threshold ==> {
                    &&& r == Ok::<Option<CertificateView>, DagError>(None)
                    &&& q.pending_headers == p.pending_headers
                    &&& q.votes_aggregators.contains_key(vote.id)
                    &&& q.votes_aggregators[vote.id].weight == total
                    &&& q.votes_aggregators[vote.id].votes == pairs.push(
                        (vote.author, vote.signature),
                    )
                    &&& q.votes_aggregators[vote.id].used.contains(vote.author)
                }
                &&& !repeated && total >= p.committee.quorum_threshold ==> {
                    &&& r == Ok::<Option<CertificateView>, DagError>(
                        Some(
                            CertificateView {
                                header: p.pending_headers[vote.id],
                                votes: pairs.push((vote.author, vote.signature)),
                            },
                        ),
                    )
                    &&& q.pending_headers == p.pending_headers.remove(vote.id)
                    &&& !q.votes_aggregators.contains_key(vote.id)
                }
            }
        }),
{
    assert(VotesView::empty().votes =~= seq![]);
}

/// A header of the primary waits for votes from when it is made, and those collected for other headers
/// stay as they are.
pub proof fn lemma_own_header_waits(p: CoreView, header: HeaderView)
    ensures
        ({
            let q = p.awaiting(header);
            &&& q == (CoreView {
                pending_headers: q.pending_headers,
                votes_aggregators: q.votes_aggregators,
                ..p
            })
            &&& q.pending_headers == p.pending_headers.insert(header.id, header)
            &&& q.votes_aggregators.contains_key(header.id)
            &&& !p.votes_aggregators.contains_key(header.id) ==> q.votes_aggregators[header.id].weight
                == 0 && q.votes_aggregators[header.id].votes.len() == 0
            &&& forall|d: Digest| #[trigger]
                p.votes_aggregators.contains_key(d) ==> q.votes_aggregators.contains_key(d)
                    && q.votes_aggregators[d] == p.votes_aggregators[d]
            &&& forall|d: Digest| #[trigger]
                q.votes_aggregators.contains_key(d) ==> d == header.id
                    || p.votes_aggregators.contains_key(d)
        }),
{
}

/// What has been collected for a header of the round after `round`, or nothing.
pub open spec fn collected_at(p: CoreView, round: Round) -> CertificatesView {
    if p.certificates_aggregators.contains_key(round) {
        p.certificates_aggregators[round]
    } else {
        CertificatesView::empty(round)
    }
}

/// Where a certificate counts: in each of the rounds from its own on, one for each rule, it is added
/// under that rule to what has been collected there, and nowhere else. The parents that are completed
/// by it come out with their rounds, the earlier first.
#[verifier::spinoff_prover]
pub proof fn lemma_certificate_way(p: CoreView, c: CertificateView, rules: Seq<RoundRule>)
    requires
        c.header.round + rules.len() <= Round::MAX,
    ensures
        ({
            let (q, list) = p.aggregated(c, rules);
            let r = c.header.round;
            &&& q == (CoreView { certificates_aggregators: q.certificates_aggregators, ..p })
            &&& forall|n: Round|
                r <= n < r + rules.len() ==> #[trigger] q.certificates_aggregators.contains_key(n)
                    && q.certificates_aggregators[n] == collected_at(p, n).appended(
                    c,
                    &p.committee,
                    rules[n - r],
                ).0
            &&& forall|n: Round|
                (n < r || n >= r + rules.len()) ==> #[trigger] q.certificates_aggregators.contains_key(
                    n,
                ) == p.certificates_aggregators.contains_key(n) && (
                p.certificates_aggregators.contains_key(n) ==> q.certificates_aggregators[n]
                    == p.certificates_aggregators[n])
            &&& forall|x: ProposalParentsView, n: Round| #[trigger]
                list.contains((x, n)) <==> r <= n < r + rules.len() && collected_at(p, n).appended(
                    c,
                    &p.committee,
                    rules[n - r],
                ).1 == Some(x)
            &&& forall|i: int, j: int|
                0 <= i < j < list.len() ==> (#[trigger] list[i]).1 < (#[trigger] list[j]).1
        }),
    decreases rules.len(),
{
    let r = c.header.round;
    let (q, list) = p.aggregated(c, rules);
    if rules.len() > 0 {
        let rest = rules.drop_last();
        let n = (rules.len() - 1) as int;
        lemma_certificate_way(p, c, rest);
        let (before, earlier) = p.aggregated(c, rest);
        let target = (r + n) as Round;
        assert(before.parents_of(target) == collected_at(p, target)) by {
            assert(before.certificates_aggregators.contains_key(target)
                == p.certificates_aggregators.contains_key(target));
        }
        let (after, parents) = collected_at(p, target).appended(c, &p.committee, rules[n]);
        assert(q.certificates_aggregators == before.certificates_aggregators.insert(target, after));
        assert forall|m: Round| r <= m < r + rules.len() implies #[trigger]
            q.certificates_aggregators.contains_key(m) && q.certificates_aggregators[m]
            == collected_at(p, m).appended(c, &p.committee, rules[m - r]).0 by {
            if m < target {
                assert(rest[m - r] == rules[m - r]);
                assert(before.certificates_aggregators.contains_key(m));
            }
        }
        assert forall|m: Round|
            (m < r || m >= r + rules.len()) implies #[trigger] q.certificates_aggregators.contains_key(
            m,
        ) == p.certificates_aggregators.contains_key(m) && (
        p.certificates_aggregators.contains_key(m) ==> q.certificates_aggregators[m]
            == p.certificates_aggregators[m]) by {
            assert(before.certificates_aggregators.contains_key(m)
                == p.certificates_aggregators.contains_key(m));
        }
        assert forall|i: int| 0 <= i < earlier.len() implies (#[trigger] earlier[i]).1
            < target by {
            assert(earlier.contains((earlier[i].0, earlier[i].1)));
        }
        assert forall|x: ProposalParentsView, m: Round| #[trigger]
            list.contains((x, m)) <==> r <= m < r + rules.len() && collected_at(p, m).appended(
                c,
                &p.committee,
                rules[m - r],
            ).1 == Some(x) by {
            if m < target && m >= r {
                assert(rest[m - r] == rules[m - r]);
            }
            assert(earlier.contains((x, m)) <==> r <= m < r + rest.len() && collected_at(
                p,
                m,
            ).appended(c, &p.committee, rest[m - r]).1 == Some(x));
            match parents {
                Some(y) => {
                    crate::dag::lemma_push_contains(earlier, (y, target), (x, m));
                },
                None => {},
            }
        }
        assert forall|i: int, j: int| 0 <= i < j < list.len() implies (#[trigger] list[i]).1 < (
        #[trigger] list[j]).1 by {
            assert(list[i] == earlier[i]);
            if j < earlier.len() {
                assert(list[j] == earlier[j]);
            } else {
                assert(list[j].1 == target);
            }
        }
    } else {
        assert(list =~= seq![]);
        assert(q == p);
    }
}

/// What is forgotten when the consensus comes to a round: exactly what is of a round more than the
/// depth behind it, and nothing while the consensus is within the depth.
pub proof fn lemma_cleanup(p: CoreView, consensus_round: Round)
    ensures
        ({
            let q = p.cleaned(consensus_round);
            let old = |r: Round| r + p.gc_depth < consensus_round;
            if consensus_round <= p.gc_depth {
                q == p
            } else {
                &&& q.name == p.name && q.committee == p.committee && q.gc_depth == p.gc_depth
                &&& q.gc_round + p.gc_depth == consensus_round
                &&& forall|r: Round, a: PublicKey| #[trigger]
                    is_noted(q.last_voted, r, a) <==> is_noted(p.last_voted, r, a) && !old(r)
                &&& forall|r: Round, d: Digest| #[trigger]
                    is_noted(q.processing, r, d) <==> is_noted(p.processing, r, d) && !old(r)
                &&& forall|r: Round| #[trigger]
                    q.certificates_aggregators.contains_key(r)
                        <==> p.certificates_aggregators.contains_key(r) && !old(r)
                &&& forall|r: Round| #[trigger]
                    q.certificates_aggregators.contains_key(r) ==> q.certificates_aggregators[r]
                        == p.certificates_aggregators[r]
                &&& forall|d: Digest| #[trigger]
                    q.pending_headers.contains_key(d) <==> p.pending_headers.contains_key(d)
                        && !old(p.pending_headers[d].round)
                &&& forall|d: Digest| #[trigger]
                    q.pending_headers.contains_key(d) ==> q.pending_headers[d]
                        == p.pending_headers[d]
                &&& forall|d: Digest| #[trigger]
                    q.votes_aggregators.contains_key(d) <==> p.votes_aggregators.contains_key(d)
                        && q.pending_headers.contains_key(d)
                &&& forall|d: Digest| #[trigger]
                    q.votes_aggregators.contains_key(d) ==> q.votes_aggregators[d]
                        == p.votes_aggregators[d]
            }
        }),
{
}

/// What comes in from another primary is checked first: what is older than what has been forgotten, or
/// breaks the rules, is refused with its error and changes nothing; anything else takes its first
/// step. A certificate is dealt with at once if its header is under way, and its header first if not.
pub proof fn lemma_received(
    p: CoreView,
    header: HeaderView,
    vote: Vote,
    c: CertificateView,
    votes_valid: bool,
)
    ensures
        p.gc_round > header.round ==> p.header_received(header) == (
            p,
            Err::<HeaderAction, DagError>(DagError::TooOld(header.id, header.round)),
        ),
        p.gc_round <= header.round ==> match header.verdict(&p.committee, header.is_signed()) {
            Err(e) => p.header_received(header) == (p, Err::<HeaderAction, DagError>(e)),
            Ok(()) => p.header_received(header) == p.header_step(header, HeaderEventView::Arrived),
        },
        match vote.verdict(&p.committee, vote.is_signed()) {
            Err(e) => p.vote_received(vote) == (p, Err::<Option<CertificateView>, DagError>(e)),
            Ok(()) => p.vote_received(vote) == p.vote_step(vote),
        },
        p.gc_round > c.header.round ==> p.certificate_received(c, votes_valid) == Err::<
            CertificateAction,
            DagError,
        >(DagError::TooOld(c.digest(), c.header.round)),
        p.gc_round <= c.header.round ==> match c.verdict(&p.committee, votes_valid) {
            Err(e) => p.certificate_received(c, votes_valid) == Err::<CertificateAction, DagError>(
                e,
            ),
            Ok(()) => p.certificate_received(c, votes_valid) == Ok::<CertificateAction, DagError>(
                if is_noted(p.processing, c.header.round, c.header.id) {
                    CertificateAction::GetAncestors
                } else {
                    CertificateAction::ProcessHeader
                },
            ),
        },
{
}

/// How a primary starts: nothing has been voted for, is under way, waits for votes or is collected.
pub proof fn lemma_core_starts(name: PublicKey, committee: Committee, gc_depth: Round)
    ensures
        ({
            let p = CoreView::started(name, committee, gc_depth);
            &&& p.name == name && p.committee == committee && p.gc_depth == gc_depth && p.gc_round
                == 0
            &&& forall|r: Round, a: PublicKey| !#[trigger] is_noted(p.last_voted, r, a)
            &&& forall|r: Round, d: Digest| !#[trigger] is_noted(p.processing, r, d)
            &&& forall|d: Digest| !#[trigger] p.pending_headers.contains_key(d)
            &&& forall|d: Digest| !#[trigger] p.votes_aggregators.contains_key(d)
            &&& forall|r: Round| !#[trigger] p.certificates_aggregators.contains_key(r)
        }),
{
}

/// Nothing is collected at first.
pub proof fn lemma_collections_start(round: Round)
    ensures
        VotesView::empty().weight == 0 && VotesView::empty().votes.len() == 0
            && VotesView::empty().used == Set::<PublicKey>::empty(),
        ({
            let v = CertificatesView::empty(round);
            &&& v.expected_round == round && v.weight == 0 && !v.has_quorum
            &&& v.certificates.len() == 0 && v.weak_certificates.len() == 0
            &&& v.used == Set::<PublicKey>::empty()
            &&& v.solid_step_union == Set::<Digest>::empty()
            &&& v.solid_wave_union == Set::<Digest>::empty()
            &&& forall|d: Digest| !#[trigger] v.solid_step_sources.contains_key(d)
            &&& v.last_union_set is None
        }),
{
}

} // verus!
