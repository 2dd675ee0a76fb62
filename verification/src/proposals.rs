//! What holds of every run of a proposer.
use vstd::prelude::*;

use crate::committee::{Committee, Round, WorkerId};
use crate::crypto::{Digest, PublicKey};
use crate::dag::lemma_push_contains;
use crate::keys::{lemma_ordered_finite, ordered};
use crate::messages::{lemma_id_covers, CertificateView, HeaderView, ProposalParentsView};
use crate::proposer::{
    greatest, is_greatest, lemma_greatest, payload_of, ProposalDecision, ProposerView, RoundClass,
    Time, UnlockedView, DIGEST_SIZE,
};

verus! {

/// What can happen to a proposer.
pub enum ProposerEvent {
    /// It is asked for a header.
    Poll { now: Time, payload_deadline: Time },
    /// Parents arrive for a header of a round.
    Parents { round: Round, update: ProposalParentsView, now: Time },
    /// A batch arrives.
    Batch { digest: Digest, worker: WorkerId },
}

impl ProposerView {
    /// The proposer after an event, and the header that it made.
    pub open spec fn stepped(self, event: ProposerEvent) -> (ProposerView, Option<HeaderView>) {
        match event {
            ProposerEvent::Poll { now, payload_deadline } => self.polled(now, payload_deadline),
            ProposerEvent::Parents { round, update, now } => (
                self.unlocked(round, update, now),
                None,
            ),
            ProposerEvent::Batch { digest, worker } => (self.with_batch(digest, worker), None),
        }
    }

    /// The proposer after a list of events, and the headers that it made.
    pub open spec fn ran(self, events: Seq<ProposerEvent>) -> (ProposerView, Seq<HeaderView>)
        decreases events.len(),
    {
        if events.len() == 0 {
            (self, seq![])
        } else {
            let (before, headers) = self.ran(events.drop_last());
            let (after, header) = before.stepped(events.last());
            match header {
                Some(h) => (after, headers.push(h)),
                None => (after, headers),
            }
        }
    }

    /// The counters have room for some more events.
    pub open spec fn has_room(self, events: nat) -> bool {
        &&& self.next_unlock_order + events <= u64::MAX
        &&& self.payload_size + events * DIGEST_SIZE <= usize::MAX
    }

    /// Every unlocked intermediate round lies after every unlocked critical round.
    pub open spec fn is_orderly(self) -> bool {
        forall|r: Round, c: Round| #[trigger]
            self.unlocked_rounds.contains_key(r) && #[trigger] self.unlocked_rounds.contains_key(c)
                && self.is_intermediate(r) && self.is_critical(c) ==> c < r
    }

    /// No unlocked round is obsolete.
    pub open spec fn is_current(self) -> bool {
        forall|r: Round| #[trigger] self.unlocked_rounds.contains_key(r) ==> !self.is_obsolete(r)
    }
}

/// A proposer with fewer unlocked rounds is well formed.
proof fn lemma_fewer(p: ProposerView, q: ProposerView)
    requires
        p.well_formed(),
        q == p.with_unlocked(q.unlocked_rounds),
        forall|r: Round| #[trigger]
            q.unlocked_rounds.contains_key(r) ==> p.unlocked_rounds.contains_key(r)
                && q.unlocked_rounds[r] == p.unlocked_rounds[r],
    ensures
        q.well_formed(),
        p.is_current() ==> q.is_current(),
{
    assert(q.unlocked_rounds.dom().subset_of(p.unlocked_rounds.dom())) by {
        assert forall|r: Round| q.unlocked_rounds.dom().contains(r) implies
            p.unlocked_rounds.dom().contains(r) by {
            assert(q.unlocked_rounds.contains_key(r));
        }
    }
    vstd::set_lib::lemma_set_subset_finite(p.unlocked_rounds.dom(), q.unlocked_rounds.dom());
    if p.is_current() {
        assert forall|r: Round| #[trigger] q.unlocked_rounds.contains_key(r) implies !q.is_obsolete(
            r,
        ) by {
            assert(p.unlocked_rounds.contains_key(r));
            if q.is_obsolete(r) {
                let c = choose|c: Round| #[trigger]
                    q.is_known(c) && q.is_critical(c) && c >= q.step_end(r);
                assert(p.is_known(c) && p.is_critical(c));
            }
        }
    }
}

/// A nonempty set of unlocked rounds has one that was unlocked first.
proof fn lemma_first_exists(p: ProposerView, rounds: Set<Round>, r: Round)
    requires
        rounds.contains(r),
    ensures
        p.first(rounds) is Some,
        p.is_first(rounds, p.first(rounds)->0),
    decreases p.unlocked_rounds[r].unlock_order,
{
    if p.is_first(rounds, r) {
        let c = choose|c: Round| p.is_first(rounds, c);
        assert(p.is_first(rounds, c));
    } else {
        let q = choose|q: Round| #[trigger]
            rounds.contains(q) && p.unlocked_rounds[q].unlock_order
                < p.unlocked_rounds[r].unlock_order;
        lemma_first_exists(p, rounds, q);
    }
}

/// What is decided to be proposed is a candidate of its class that was unlocked before the others.
/// The first round goes without a payload, and any other only when a payload or the end of the delay
/// asks for it.
pub proof fn lemma_first_unlocked_first_proposed(
    p: ProposerView,
    timer_expired: bool,
    enough_digests: bool,
    now: Time,
)
    ensures
        p.decision(timer_expired, enough_digests, now) matches Some(d) ==> ({
            let class = p.class(d.round);
            &&& p.is_first(p.candidates(class, now), d.round)
            &&& class == RoundClass::Bootstrap ==> !d.include_payload
            &&& class != RoundClass::Bootstrap ==> (timer_expired || enough_digests)
                && d.include_payload == (p.digests.len() > 0)
        }),
{
    lemma_first_of_class(p, RoundClass::Bootstrap, now);
    lemma_first_of_class(p, RoundClass::Critical, now);
    lemma_first_of_class(p, RoundClass::Intermediate, now);
}

/// The round of a class that was unlocked first is a candidate of that class.
pub(crate) proof fn lemma_first_of_class(p: ProposerView, class: RoundClass, now: Time)
    ensures
        p.first(p.candidates(class, now)) matches Some(r) ==> p.is_first(
            p.candidates(class, now),
            r,
        ) && p.class(r) == class && p.is_waiting(r),
{
    let rounds = p.candidates(class, now);
    if exists|r: Round| rounds.contains(r) {
        let r = choose|r: Round| rounds.contains(r);
        lemma_first_exists(p, rounds, r);
    }
}

/// What an event does to the rounds: a header is made for a round that has not been proposed, which is
/// proposed from then on.
pub proof fn lemma_step_proposes(p: ProposerView, event: ProposerEvent)
    requires
        p.well_formed(),
        p.has_room(1),
    ensures
        ({
            let (q, header) = p.stepped(event);
            &&& q.well_formed()
            &&& q.next_unlock_order <= p.next_unlock_order + 1
            &&& q.payload_size <= p.payload_size + DIGEST_SIZE
            &&& match header {
                Some(h) => !p.proposed_rounds.contains(h.round) && q.proposed_rounds
                    == p.proposed_rounds.insert(h.round),
                None => q.proposed_rounds == p.proposed_rounds,
            }
        }),
{
    match event {
        ProposerEvent::Poll { now, payload_deadline } => {
            let fresh = p.without_stale();
            lemma_fewer(p, fresh);
            let timer_expired = now >= payload_deadline;
            let enough = p.payload_size >= p.header_size;
            lemma_first_unlocked_first_proposed(fresh, timer_expired, enough, now);
            match fresh.decision(timer_expired, enough, now) {
                Some(d) => {
                    assert(fresh.candidates(fresh.class(d.round), now).contains(d.round));
                    assert(fresh.is_waiting(d.round));
                    lemma_proposed(fresh, d);
                },
                None => {},
            }
        },
        ProposerEvent::Parents { round, update, now } => {
            lemma_unlocked(p, round, update, now);
        },
        ProposerEvent::Batch { digest, worker } => {},
    }
}

/// Proposing a round keeps the proposer well formed and current.
proof fn lemma_proposed(p: ProposerView, d: ProposalDecision)
    requires
        p.well_formed(),
        p.is_waiting(d.round),
    ensures
        p.proposed(d).well_formed(),
        p.proposed(d).proposed_rounds == p.proposed_rounds.insert(d.round),
        p.is_current() ==> p.proposed(d).is_current(),
{
    let round = d.round;
    let taken = if d.include_payload {
        p.drained()
    } else {
        p
    };
    let after = ProposerView {
        unlocked_rounds: taken.unlocked_rounds.remove(round),
        proposed_rounds: taken.proposed_rounds.insert(round),
        latest_observed_wave: if p.wave(round) > p.latest_observed_wave {
            p.wave(round)
        } else {
            p.latest_observed_wave
        },
        ..taken
    };
    assert forall|r: Round| #[trigger] after.unlocked_rounds.contains_key(r) implies
        p.unlocked_rounds.contains_key(r) && r != round by {}
    assert(after.well_formed());
    if p.is_current() {
        assert forall|r: Round| #[trigger] after.unlocked_rounds.contains_key(r) implies
            !after.is_obsolete(r) by {
            assert(p.unlocked_rounds.contains_key(r));
            if after.is_obsolete(r) {
                let c = choose|c: Round| #[trigger]
                    after.is_known(c) && after.is_critical(c) && c >= after.step_end(r);
                assert(p.is_known(c) && p.is_critical(c));
            }
        }
    }
    lemma_fewer(after, after.without_obsolete(round));
}

/// Parents for a round keep the proposer well formed and current.
proof fn lemma_unlocked(p: ProposerView, round: Round, update: ProposalParentsView, now: Time)
    requires
        p.well_formed(),
        p.next_unlock_order < u64::MAX,
    ensures
        ({
            let q = p.unlocked(round, update, now);
            &&& q.well_formed()
            &&& q.proposed_rounds == p.proposed_rounds
            &&& q.payload_size == p.payload_size
            &&& q.digests == p.digests
            &&& q.next_unlock_order <= p.next_unlock_order + 1
            &&& p.is_current() ==> q.is_current()
        }),
{
    lemma_fewer(p, p.with_unlocked(p.unlocked_rounds.remove(round)));
    if p.survives(round) {
        let wave = p.wave(round);
        let marked = ProposerView { latest_observed_wave: wave, ..p };
        let seen = p.observed(wave);
        assert(marked.well_formed());
        if p.is_current() {
            assert(marked.is_current()) by {
                assert forall|r: Round| #[trigger] marked.unlocked_rounds.contains_key(r) implies
                    !marked.is_obsolete(r) by {
                    assert(p.unlocked_rounds.contains_key(r));
                    if marked.is_obsolete(r) {
                        let c = choose|c: Round| #[trigger]
                            marked.is_known(c) && marked.is_critical(c) && c
                                >= marked.step_end(r);
                        assert(p.is_known(c) && p.is_critical(c));
                    }
                }
            }
        }
        lemma_fewer(marked, marked.without_stale());
        lemma_fewer(seen, seen.with_unlocked(seen.unlocked_rounds.remove(round)));
        if !seen.proposed_rounds.contains(round) && !seen.is_obsolete(round) {
            let kept = if seen.is_critical(round) {
                seen.without_obsolete(round)
            } else {
                seen
            };
            lemma_fewer(seen, seen.without_obsolete(round));
            let q = kept.joined(round, update, now);
            assert(q.unlocked_rounds.dom() =~= kept.unlocked_rounds.dom().insert(round));
            assert forall|r: Round| #[trigger] q.unlocked_rounds.contains_key(r) && r
                != round implies kept.unlocked_rounds.contains_key(r) && q.unlocked_rounds[r]
                == kept.unlocked_rounds[r] by {}
            assert(q.well_formed());
            if p.is_current() {
                lemma_joined_current(seen, kept, round, update, now);
            }
        }
    }
}

/// Parents that join a round leave no obsolete round.
proof fn lemma_joined_current(
    seen: ProposerView,
    kept: ProposerView,
    round: Round,
    update: ProposalParentsView,
    now: Time,
)
    requires
        seen.well_formed(),
        seen.is_current(),
        !seen.is_obsolete(round),
        kept == if seen.is_critical(round) {
            seen.without_obsolete(round)
        } else {
            seen
        },
        kept.is_current(),
    ensures
        kept.joined(round, update, now).is_current(),
{
    let q = kept.joined(round, update, now);
    assert forall|r: Round| #[trigger] q.unlocked_rounds.contains_key(r) implies !q.is_obsolete(
        r,
    ) by {
        if q.is_obsolete(r) {
            let c = choose|c: Round| #[trigger]
                q.is_known(c) && q.is_critical(c) && c >= q.step_end(r);
            if c == round && !kept.is_known(round) {
                if r == round {
                    assert(seen.is_critical(round) && seen.is_intermediate(round));
                } else {
                    assert(kept.unlocked_rounds.contains_key(r));
                }
            } else {
                assert(kept.is_known(c) && kept.is_critical(c));
                assert(seen.is_known(c) && seen.is_critical(c));
                if r == round {
                    assert(seen.has_started(seen.step_end(round)));
                } else {
                    assert(kept.unlocked_rounds.contains_key(r));
                    assert(kept.has_started(kept.step_end(r)));
                }
            }
        }
    }
}

/// The proposer starts without an obsolete round.
pub proof fn lemma_started_current(
    name: PublicKey,
    committee: &Committee,
    header_size: usize,
    max_header_delay: u64,
    now: Time,
)
    ensures
        ProposerView::started(name, committee, header_size, max_header_delay, now).is_current(),
{
}

/// No unlocked round is ever obsolete: whatever happens, no intermediate round stays unlocked once a
/// critical round at or beyond the end of its step has been unlocked or proposed.
pub proof fn lemma_never_obsolete(p: ProposerView, event: ProposerEvent)
    requires
        p.well_formed(),
        p.has_room(1),
        p.is_current(),
    ensures
        p.stepped(event).0.is_current(),
{
    match event {
        ProposerEvent::Poll { now, payload_deadline } => {
            let fresh = p.without_stale();
            lemma_fewer(p, fresh);
            let timer_expired = now >= payload_deadline;
            let enough = p.payload_size >= p.header_size;
            lemma_first_unlocked_first_proposed(fresh, timer_expired, enough, now);
            match fresh.decision(timer_expired, enough, now) {
                Some(d) => {
                    assert(fresh.candidates(fresh.class(d.round), now).contains(d.round));
                    assert(fresh.is_waiting(d.round));
                    lemma_proposed(fresh, d);
                },
                None => {},
            }
        },
        ProposerEvent::Parents { round, update, now } => {
            lemma_unlocked(p, round, update, now);
        },
        ProposerEvent::Batch { digest, worker } => {
            let q = p.with_batch(digest, worker);
            assert forall|r: Round| #[trigger] q.unlocked_rounds.contains_key(r) implies
                !q.is_obsolete(r) by {
                assert(p.unlocked_rounds.contains_key(r));
                if q.is_obsolete(r) {
                    let c = choose|c: Round| #[trigger]
                        q.is_known(c) && q.is_critical(c) && c >= q.step_end(r);
                    assert(p.is_known(c) && p.is_critical(c));
                }
            }
        },
    }
}

/// Whatever happens keeps the proposer well formed, as long as its counters have room.
proof fn lemma_ran_well_formed(p: ProposerView, events: Seq<ProposerEvent>)
    requires
        p.well_formed(),
        p.has_room(events.len()),
    ensures
        ({
            let q = p.ran(events).0;
            &&& q.well_formed()
            &&& q.next_unlock_order <= p.next_unlock_order + events.len()
            &&& q.payload_size <= p.payload_size + events.len() * DIGEST_SIZE
        }),
    decreases events.len(),
{
    if events.len() > 0 {
        let n = (events.len() - 1) as nat;
        assert(events.len() * DIGEST_SIZE == n * DIGEST_SIZE + DIGEST_SIZE) by (nonlinear_arith)
            requires
                events.len() == n + 1,
        ;
        lemma_ran_well_formed(p, events.drop_last());
        lemma_step_proposes(p.ran(events.drop_last()).0, events.last());
    }
}

/// No round is proposed twice: whatever happens, the headers that are made are of different rounds,
/// none of which had been proposed before.
pub proof fn lemma_rounds_once(p: ProposerView, events: Seq<ProposerEvent>)
    ensures
        ({
            let (q, headers) = p.ran(events);
            &&& p.proposed_rounds.subset_of(q.proposed_rounds)
            &&& forall|i: int|
                0 <= i < headers.len() ==> q.proposed_rounds.contains((#[trigger] headers[i]).round)
                    && !p.proposed_rounds.contains(headers[i].round)
            &&& forall|i: int, j: int|
                0 <= i < j < headers.len() ==> (#[trigger] headers[i]).round != (
                #[trigger] headers[j]).round
        }),
    decreases events.len(),
{
    if events.len() > 0 {
        lemma_rounds_once(p, events.drop_last());
        let (before, headers) = p.ran(events.drop_last());
        match events.last() {
            ProposerEvent::Poll { now, payload_deadline } => {
                lemma_first_unlocked_first_proposed(
                    before.without_stale(),
                    now >= payload_deadline,
                    before.payload_size >= before.header_size,
                    now,
                );
            },
            _ => {},
        }
    }
}

/// What happens later does not change the headers that have been made.
proof fn lemma_headers_stay(p: ProposerView, events: Seq<ProposerEvent>, n: int)
    requires
        0 <= n <= events.len(),
    ensures
        p.ran(events.take(n)).1.is_prefix_of(p.ran(events).1),
    decreases events.len(),
{
    if n == events.len() {
        assert(events.take(n) =~= events);
        assert(p.ran(events).1.is_prefix_of(p.ran(events).1));
    } else {
        lemma_headers_stay(p, events.drop_last(), n);
        assert(events.drop_last().take(n) =~= events.take(n));
        let early = p.ran(events.take(n)).1;
        let headers = p.ran(events.drop_last()).1;
        let all = p.ran(events).1;
        assert(all.len() >= headers.len() && all.take(headers.len() as int) =~= headers);
        assert(all.take(early.len() as int) =~= headers.take(early.len() as int));
    }
}

/// A proposer that starts and is asked for a header makes as its first header that of the first round,
/// without a payload, on the digests of the genesis certificates, which it hands on. The header stays
/// the first, whatever happens later.
pub proof fn lemma_first_header(
    name: PublicKey,
    committee: &Committee,
    header_size: usize,
    max_header_delay: u64,
    now: Time,
    events: Seq<ProposerEvent>,
)
    requires
        committee.members().finite(),
        committee.members().len() > 0,
        events.len() > 0,
        events[0] is Poll,
    ensures
        ({
            let p = ProposerView::started(name, committee, header_size, max_header_delay, now);
            let headers = p.ran(events).1;
            let genesis = committee.members().map(
                |a: PublicKey| CertificateView::genesis(a).digest(),
            );
            &&& headers.len() > 0
            &&& headers[0].author == name
            &&& headers[0].round == 1
            &&& headers[0].payload == Map::<Digest, WorkerId>::empty()
            &&& headers[0].parents == genesis
            &&& headers[0].solid_step_vertices_merged == genesis
            &&& headers[0].solid_wave_vertices_merged == genesis
        }),
{
    let p = ProposerView::started(name, committee, header_size, max_header_delay, now);
    let names = ordered(committee.members());
    let digest = |a: PublicKey| CertificateView::genesis(a).digest();
    let genesis = committee.members().map(digest);
    lemma_ordered_finite(committee.members());
    let parents = names.map_values(digest);
    assert(parents.to_set() =~= genesis) by {
        assert forall|d: Digest| parents.to_set().contains(d) implies genesis.contains(d) by {
            let i = choose|i: int| 0 <= i < parents.len() && parents[i] == d;
            assert(names.contains(names[i]));
            assert(committee.members().contains(names[i]) && digest(names[i]) == d);
        }
        assert forall|d: Digest| genesis.contains(d) implies parents.to_set().contains(d) by {
            let a = choose|a: PublicKey| committee.members().contains(a) && digest(a) == d;
            assert(names.contains(a));
            let i = choose|i: int| 0 <= i < names.len() && names[i] == a;
            assert(parents[i] == d);
        }
    }
    let a = committee.members().choose();
    assert(names.contains(a));
    let fresh = p.without_stale();
    assert(p.survives(1));
    assert(fresh.unlocked_rounds =~= p.unlocked_rounds);
    match events[0] {
        ProposerEvent::Poll { now: moment, payload_deadline } => {
            assert(fresh.candidates(RoundClass::Bootstrap, moment).contains(1));
            lemma_first_of_class(fresh, RoundClass::Bootstrap, moment);
            assert(p.polled(moment, payload_deadline).1 == Some(
                fresh.header(1, fresh.unlocked_rounds[1], false),
            ));
        },
        _ => {},
    }
    let first = events.take(1);
    assert(first.drop_last() =~= seq![]);
    assert(first.last() == events[0]);
    assert(p.ran(first.drop_last()) == (p, Seq::<HeaderView>::empty()));
    assert(p.ran(first).1.len() == 1);
    let h = p.ran(first).1[0];
    assert(h == fresh.header(1, fresh.unlocked_rounds[1], false));
    assert(h.parents == genesis);
    lemma_headers_stay(p, events, 1);
    assert(p.ran(events).1[0] == h);
}

/// A critical round lies before the end of the step of an intermediate round exactly if it lies before
/// the round.
pub(crate) proof fn lemma_before_step_end(p: ProposerView, critical: Round, round: Round)
    requires
        p.solid_step_length > 0,
        p.is_critical(critical),
        p.is_intermediate(round),
    ensures
        (critical < p.step_end(round)) == (critical < round),
        p.step_end(round) > round,
{
    let length = p.solid_step_length as int;
    let c = critical as int;
    let r = round as int;
    vstd::arithmetic::div_mod::lemma_fundamental_div_mod(c, length);
    vstd::arithmetic::div_mod::lemma_fundamental_div_mod(r, length);
    assert((r / length + 1) * length == length * (r / length) + length) by (nonlinear_arith);
    if c < p.step_end(round) {
        assert(c / length < r / length + 1) by (nonlinear_arith)
            requires
                length > 0,
                length * (c / length) < length * (r / length) + length,
        ;
        assert(length * (c / length) <= length * (r / length)) by (nonlinear_arith)
            requires
                length > 0,
                c / length <= r / length,
        ;
    }
}

/// Once a critical round is unlocked, only later intermediate rounds are: parents that arrive keep
/// this, whatever round they are for. And parents for an intermediate round whose solid step has been
/// ended do not unlock it.
pub proof fn lemma_critical_ends_step(
    p: ProposerView,
    round: Round,
    update: ProposalParentsView,
    now: Time,
)
    requires
        p.solid_step_length > 0,
    ensures
        p.is_orderly() ==> p.unlocked(round, update, now).is_orderly(),
        p.is_obsolete(round) && !p.proposed_rounds.contains(round) ==> !p.unlocked(
            round,
            update,
            now,
        ).unlocked_rounds.contains_key(round),
{
    let q = p.unlocked(round, update, now);
    let seen = p.observed(p.wave(round));
    if p.is_orderly() {
        assert forall|r: Round, c: Round|
            #![trigger q.unlocked_rounds.contains_key(r), q.unlocked_rounds.contains_key(c)]
            q.unlocked_rounds.contains_key(r) && q.unlocked_rounds.contains_key(c)
                && q.is_intermediate(r) && q.is_critical(c) implies c < r by {
            lemma_before_step_end(p, c, r);
            assert(r == round || p.unlocked_rounds.contains_key(r));
            assert(c == round || p.unlocked_rounds.contains_key(c));
            if r == round && !p.unlocked_rounds.contains_key(r) {
                assert(seen.unlocked_rounds.contains_key(c));
                assert(seen.is_known(c));
                assert(!seen.has_started(seen.step_end(r)));
            }
        }
    }
    if p.is_obsolete(round) {
        let c = choose|c: Round| #[trigger]
            p.is_known(c) && p.is_critical(c) && c >= p.step_end(round);
        lemma_before_step_end(p, c, round);
        lemma_wave_monotone(p, round, c);
        assert(seen.is_known(c));
        assert(seen.is_obsolete(round));
    }
}

/// A later round is of the same wave or of a later one.
proof fn lemma_wave_monotone(p: ProposerView, a: Round, b: Round)
    requires
        a <= b,
    ensures
        p.wave(a) <= p.wave(b),
{
    if p.solid_wave_length > 0 && a > 0 {
        let length = p.solid_wave_length as int;
        vstd::arithmetic::div_mod::lemma_div_is_ordered(a - 1, b - 1, length);
        assert(0 <= (a - 1) / length && (b - 1) / length <= b - 1) by (nonlinear_arith)
            requires
                length > 0,
                0 < a <= b,
        ;
    }
}

/// A header that a proposer makes has the id that it must have, and keeps the rules if its author has
/// stake and runs the workers named in it and the signature is valid.
pub proof fn lemma_header_verifies(
    p: ProposerView,
    round: Round,
    state: UnlockedView,
    include_payload: bool,
    committee: &Committee,
)
    requires
        committee.stake_of(p.name) > 0,
        forall|d: Digest| #[trigger]
            payload_of(p.digests).contains_key(d) ==> committee.has_worker(
                p.name,
                payload_of(p.digests)[d],
            ),
    ensures
        ({
            let h = p.header(round, state, include_payload);
            h.digest() == h.id && h.verdict(committee, true) is Ok
        }),
{
    let h = p.header(round, state, include_payload);
    let bare = HeaderView::bare(p.name, round, h.payload, h.parents);
    lemma_id_covers(h, bare);
}

/// Dropping stale rounds twice drops no more than dropping them once.
pub proof fn lemma_stale_once(p: ProposerView)
    ensures
        p.without_stale().without_stale() == p.without_stale(),
{
    let q = p.without_stale();
    assert forall|r: Round| #[trigger] q.unlocked_rounds.contains_key(r) implies q.survives(r) by {
        assert(p.unlocked_rounds.contains_key(r) && p.survives(r));
        let wave = p.wave(r);
        if wave < p.latest_observed_wave {
            assert(q.unfinished_critical(wave) =~= p.unfinished_critical(wave));
            assert(q.has_proposed_critical(wave) == p.has_proposed_critical(wave));
            let before = p.unlocked_critical(wave);
            let after = q.unlocked_critical(wave);
            if !p.has_proposed_critical(wave) {
                if exists|x: Round| before.contains(x) {
                    let x = choose|x: Round| before.contains(x);
                    let g = lemma_greatest_exists(before, x);
                    assert(greatest(before) == Some(g));
                    assert(r == g);
                    assert(after.contains(r));
                    assert forall|y: Round| #[trigger] after.contains(y) implies y <= r by {
                        assert(before.contains(y));
                    }
                    lemma_greatest(after, r);
                } else {
                    assert forall|y: Round| !after.contains(y) by {
                        assert(!before.contains(y));
                    }
                }
            }
        }
    }
    assert(q.without_stale().unlocked_rounds =~= q.unlocked_rounds);
}

/// A nonempty set of rounds has a greatest one.
pub(crate) proof fn lemma_greatest_exists(rounds: Set<Round>, r: Round) -> (g: Round)
    requires
        rounds.contains(r),
    ensures
        is_greatest(rounds, g),
        greatest(rounds) == Some(g),
    decreases Round::MAX - r,
{
    if is_greatest(rounds, r) {
        lemma_greatest(rounds, r);
        r
    } else {
        let x = choose|x: Round| #[trigger] rounds.contains(x) && x > r;
        lemma_greatest_exists(rounds, x)
    }
}

/// The batches that a list of events brings.
pub open spec fn batches(events: Seq<ProposerEvent>) -> Seq<Digest>
    decreases events.len(),
{
    if events.len() == 0 {
        seq![]
    } else {
        match events.last() {
            ProposerEvent::Batch { digest, worker } => batches(events.drop_last()).push(digest),
            _ => batches(events.drop_last()),
        }
    }
}

/// The batches of a payload come from the list.
proof fn lemma_payload_members(digests: Seq<(Digest, WorkerId)>)
    ensures
        forall|d: Digest| #[trigger]
            payload_of(digests).contains_key(d) == digests.map_values(
                |x: (Digest, WorkerId)| x.0,
            ).contains(d),
    decreases digests.len(),
{
    let key = |x: (Digest, WorkerId)| x.0;
    if digests.len() > 0 {
        let rest = digests.drop_last();
        lemma_payload_members(rest);
        assert(digests.map_values(key) =~= rest.map_values(key).push(digests.last().0));
        assert forall|d: Digest| #[trigger] payload_of(digests).contains_key(d)
            == digests.map_values(key).contains(d) by {
            lemma_push_contains(rest.map_values(key), digests.last().0, d);
            assert(payload_of(rest).contains_key(d) == rest.map_values(key).contains(d));
        }
    }
}

/// The batches that wait.
pub open spec fn waiting(p: ProposerView) -> Seq<Digest> {
    p.digests.map_values(|x: (Digest, WorkerId)| x.0)
}

/// The batches of the headers and those that wait have arrived, and none is in two places.
spec fn placed(p: ProposerView, headers: Seq<HeaderView>, arrived: Seq<Digest>) -> bool {
    &&& forall|d: Digest| #[trigger] waiting(p).contains(d) ==> arrived.contains(d)
    &&& forall|i: int, d: Digest|
        0 <= i < headers.len() && #[trigger] headers[i].payload.contains_key(d)
            ==> arrived.contains(d) && !waiting(p).contains(d)
    &&& forall|i: int, j: int, d: Digest|
        0 <= i < j < headers.len() && #[trigger] headers[i].payload.contains_key(d)
            ==> !#[trigger] headers[j].payload.contains_key(d)
}

/// No batch goes into two headers, where no batch arrives twice.
pub proof fn lemma_batches_once(p: ProposerView, events: Seq<ProposerEvent>)
    requires
        p.well_formed(),
        p.has_room(events.len()),
        p.digests.len() == 0,
        batches(events).no_duplicates(),
    ensures
        ({
            let headers = p.ran(events).1;
            forall|i: int, j: int, d: Digest|
                0 <= i < j < headers.len() && #[trigger] headers[i].payload.contains_key(d)
                    ==> !#[trigger] headers[j].payload.contains_key(d)
        }),
{
    lemma_placed(p, events);
}

/// Where the batches of a run are.
proof fn lemma_placed(p: ProposerView, events: Seq<ProposerEvent>)
    requires
        p.well_formed(),
        p.has_room(events.len()),
        p.digests.len() == 0,
        batches(events).no_duplicates(),
    ensures
        placed(p.ran(events).0, p.ran(events).1, batches(events)),
    decreases events.len(),
{
    if events.len() == 0 {
        assert(waiting(p) =~= seq![]);
    } else {
        let n = (events.len() - 1) as nat;
        assert(events.len() * DIGEST_SIZE == n * DIGEST_SIZE + DIGEST_SIZE) by (nonlinear_arith)
            requires
                events.len() == n + 1,
        ;
        let earlier = events.drop_last();
        let arrived = batches(earlier);
        let all = batches(events);
        assert(arrived.no_duplicates()) by {
            assert forall|i: int, j: int| 0 <= i < j < arrived.len() implies arrived[i]
                != arrived[j] by {
                assert(all[i] == arrived[i] && all[j] == arrived[j]);
            }
        }
        lemma_placed(p, earlier);
        lemma_ran_well_formed(p, earlier);
        let (before, headers) = p.ran(earlier);
        let (after, header) = before.stepped(events.last());
        match events.last() {
            ProposerEvent::Batch { digest, worker } => {
                assert(waiting(after) =~= waiting(before).push(digest));
                assert forall|d: Digest| #[trigger] waiting(after).contains(d) implies all.contains(
                    d,
                ) by {
                    lemma_push_contains(waiting(before), digest, d);
                    lemma_push_contains(arrived, digest, d);
                }
                assert(!arrived.contains(digest)) by {
                    if arrived.contains(digest) {
                        let i = choose|i: int| 0 <= i < arrived.len() && arrived[i] == digest;
                        assert(all[i] == all[arrived.len() as int]);
                    }
                }
                assert forall|i: int, d: Digest|
                    0 <= i < headers.len() && #[trigger] headers[i].payload.contains_key(d) implies
                    all.contains(d) && !waiting(after).contains(d) by {
                    lemma_push_contains(waiting(before), digest, d);
                    lemma_push_contains(arrived, digest, d);
                }
            },
            ProposerEvent::Parents { round, update, now } => {
                lemma_unlocked(before, round, update, now);
                assert(waiting(after) =~= waiting(before));
            },
            ProposerEvent::Poll { now, payload_deadline } => {
                match header {
                    Some(h) => {
                        lemma_payload_members(before.digests);
                        assert(forall|d: Digest| #[trigger]
                            h.payload.contains_key(d) ==> waiting(before).contains(d));
                        let made = headers.push(h);
                        assert(waiting(after) =~= waiting(before) || waiting(after) =~= seq![]);
                        assert forall|i: int, d: Digest|
                            0 <= i < made.len() && #[trigger] made[i].payload.contains_key(
                                d,
                            ) implies arrived.contains(d) && !waiting(after).contains(d) by {
                            if i < headers.len() {
                                assert(headers[i].payload.contains_key(d));
                            } else {
                                assert(h.payload.contains_key(d));
                                assert(waiting(after) =~= seq![]);
                            }
                        }
                        assert forall|i: int, j: int, d: Digest|
                            0 <= i < j < made.len() && #[trigger] made[i].payload.contains_key(
                                d,
                            ) implies !#[trigger] made[j].payload.contains_key(d) by {
                            assert(headers[i].payload.contains_key(d));
                            if j < headers.len() {
                                assert(made[j] == headers[j]);
                            }
                        }
                    },
                    None => {
                        assert(waiting(after) =~= waiting(before));
                    },
                }
            },
        }
    }
}

} // verus!
