//! What holds of every run of a primary.
use vstd::prelude::*;

use crate::committee::{Round, RoundRule};
use crate::crypto::{Digest, PublicKey};
use crate::messages::{CertificateView, HeaderView, Vote};
use crate::primary::{at_round, CoreView, HeaderAction, HeaderEventView};

verus! {

/// What can happen to a primary.
pub enum CoreEvent {
    /// It makes a header of its own.
    Own { header: HeaderView },
    /// Something happens to a header under way.
    Header { header: HeaderView, event: HeaderEventView },
    /// A vote arrives.
    Vote { vote: Vote },
    /// A certificate is stored.
    Certificate { certificate: CertificateView, rules: Seq<RoundRule> },
    /// The consensus has come to a round.
    Cleanup { consensus_round: Round },
}

impl CoreView {
    /// The primary after an event, and the vote that it makes.
    pub open spec fn stepped(self, event: CoreEvent) -> (CoreView, Option<Vote>) {
        match event {
            CoreEvent::Own { header } => (self.awaiting(header), None),
            CoreEvent::Header { header, event } => {
                let (after, result) = self.header_step(header, event);
                (
                    after,
                    match result {
                        Ok(HeaderAction::CountVote(vote)) => Some(vote),
                        Ok(HeaderAction::SendVote(vote)) => Some(vote),
                        _ => None,
                    },
                )
            },
            CoreEvent::Vote { vote } => (self.vote_step(vote).0, None),
            CoreEvent::Certificate { certificate, rules } => (
                self.aggregated(certificate, rules).0,
                None,
            ),
            CoreEvent::Cleanup { consensus_round } => (self.cleaned(consensus_round), None),
        }
    }

    /// The primary after a list of events, and the votes that it makes.
    pub open spec fn ran(self, events: Seq<CoreEvent>) -> (CoreView, Seq<Vote>)
        decreases events.len(),
    {
        if events.len() == 0 {
            (self, seq![])
        } else {
            let (before, votes) = self.ran(events.drop_last());
            let (after, vote) = before.stepped(events.last());
            match vote {
                Some(v) => (after, votes.push(v)),
                None => (after, votes),
            }
        }
    }

    /// Votes are collected for exactly the pending headers.
    pub open spec fn collects_pending(self) -> bool {
        self.votes_aggregators.dom() == self.pending_headers.dom()
    }
}

/// An event makes a primary with this depth forget a round.
pub open spec fn forgets(event: CoreEvent, gc_depth: Round, round: Round) -> bool {
    match event {
        CoreEvent::Cleanup { consensus_round } => consensus_round > gc_depth && round
            < consensus_round - gc_depth,
        _ => false,
    }
}

/// One of a list of events makes a primary with this depth forget a round.
pub open spec fn is_forgotten(events: Seq<CoreEvent>, gc_depth: Round, round: Round) -> bool {
    exists|i: int| 0 <= i < events.len() && forgets(#[trigger] events[i], gc_depth, round)
}

/// Counting a certificate changes nothing else.
proof fn lemma_aggregated(p: CoreView, c: CertificateView, rules: Seq<RoundRule>)
    ensures
        p.aggregated(c, rules).0 == (CoreView {
            certificates_aggregators: p.aggregated(c, rules).0.certificates_aggregators,
            ..p
        }),
    decreases rules.len(),
{
    if rules.len() > 0 {
        lemma_aggregated(p, c, rules.drop_last());
    }
}

/// What an event does to the votes made: a vote goes to an author that has had none in the round, and
/// a vote is remembered until its round is forgotten.
pub proof fn lemma_step_votes(p: CoreView, event: CoreEvent)
    ensures
        ({
            let (q, vote) = p.stepped(event);
            &&& q.gc_depth == p.gc_depth
            &&& forall|r: Round, a: PublicKey| #[trigger]
                p.has_voted(r, a) ==> q.has_voted(r, a) || forgets(event, p.gc_depth, r)
            &&& vote matches Some(v) ==> !p.has_voted(v.round, v.origin) && q.has_voted(
                v.round,
                v.origin,
            ) && v.author == p.name
        }),
{
    match event {
        CoreEvent::Certificate { certificate, rules } => {
            lemma_aggregated(p, certificate, rules);
        },
        _ => {},
    }
}

/// An author gets at most one vote in a round: whatever happens, two votes for the same author and
/// round are only made if that round has been forgotten.
pub proof fn lemma_votes_once(p: CoreView, events: Seq<CoreEvent>)
    ensures
        ({
            let (q, votes) = p.ran(events);
            &&& q.gc_depth == p.gc_depth
            &&& forall|i: int|
                0 <= i < votes.len() ==> q.has_voted(
                    (#[trigger] votes[i]).round,
                    votes[i].origin,
                ) || is_forgotten(events, p.gc_depth, votes[i].round)
            &&& forall|i: int, j: int|
                0 <= i < j < votes.len() && (#[trigger] votes[i]).round == (
                #[trigger] votes[j]).round && votes[i].origin == votes[j].origin ==> is_forgotten(
                    events,
                    p.gc_depth,
                    votes[i].round,
                )
        }),
    decreases events.len(),
{
    if events.len() > 0 {
        let earlier = events.drop_last();
        lemma_votes_once(p, earlier);
        let (before, votes) = p.ran(earlier);
        let (after, vote) = before.stepped(events.last());
        let made = p.ran(events).1;
        lemma_step_votes(before, events.last());
        assert forall|r: Round| is_forgotten(earlier, p.gc_depth, r) implies #[trigger]
            is_forgotten(events, p.gc_depth, r) by {
            let i = choose|i: int|
                0 <= i < earlier.len() && forgets(#[trigger] earlier[i], p.gc_depth, r);
            assert(events[i] == earlier[i]);
        }
        assert forall|r: Round| forgets(events.last(), p.gc_depth, r) implies #[trigger]
            is_forgotten(events, p.gc_depth, r) by {
            assert(events[events.len() - 1] == events.last());
        }
        assert forall|i: int| 0 <= i < made.len() implies after.has_voted(
            (#[trigger] made[i]).round,
            made[i].origin,
        ) || is_forgotten(events, p.gc_depth, made[i].round) by {
            if i < votes.len() {
                assert(made[i] == votes[i]);
                if before.has_voted(votes[i].round, votes[i].origin) {
                    assert(after.has_voted(votes[i].round, votes[i].origin) || forgets(
                        events.last(),
                        p.gc_depth,
                        votes[i].round,
                    ));
                } else {
                    assert(is_forgotten(earlier, p.gc_depth, votes[i].round));
                }
            }
        }
        assert forall|i: int, j: int|
            0 <= i < j < made.len() && (#[trigger] made[i]).round == (#[trigger] made[j]).round
                && made[i].origin == made[j].origin implies is_forgotten(
            events,
            p.gc_depth,
            made[i].round,
        ) by {
            assert(made[i] == votes[i]);
            if j < votes.len() {
                assert(made[j] == votes[j]);
                assert(is_forgotten(earlier, p.gc_depth, votes[i].round));
            } else {
                assert(!before.has_voted(made[j].round, made[j].origin));
                assert(is_forgotten(earlier, p.gc_depth, votes[i].round));
            }
        }
    }
}

/// Votes are always collected for exactly the pending headers.
pub proof fn lemma_collects_pending(p: CoreView, event: CoreEvent)
    requires
        p.collects_pending(),
    ensures
        p.stepped(event).0.collects_pending(),
{
    let q = p.stepped(event).0;
    match event {
        CoreEvent::Certificate { certificate, rules } => {
            lemma_aggregated(p, certificate, rules);
        },
        _ => {},
    }
    assert(q.votes_aggregators.dom() =~= q.pending_headers.dom());
}

/// What is forgotten is gone: after the consensus has come to a round beyond the depth, nothing under
/// way is of a round more than the depth behind it.
pub proof fn lemma_nothing_old(p: CoreView, consensus_round: Round, round: Round)
    requires
        consensus_round > p.gc_depth,
        round < consensus_round - p.gc_depth,
    ensures
        ({
            let q = p.cleaned(consensus_round);
            &&& q.gc_round == consensus_round - p.gc_depth
            &&& at_round(q.last_voted, round) == Set::<PublicKey>::empty()
            &&& at_round(q.processing, round) == Set::<Digest>::empty()
            &&& !q.certificates_aggregators.contains_key(round)
            &&& forall|d: Digest| #[trigger]
                q.pending_headers.contains_key(d) ==> q.pending_headers[d].round != round
        }),
{
}

} // verus!
