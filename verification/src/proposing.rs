//! What a proposer makes of its rounds, told by the rounds themselves.
use vstd::prelude::*;

use crate::committee::{Committee, Round, WorkerId};
use crate::crypto::{Digest, PublicKey};
use crate::keys::ordered;
use crate::messages::{lemma_id_covers, HeaderView, ProposalParentsView};
use crate::proposals::{
    lemma_before_step_end, lemma_first_of_class, lemma_greatest_exists,
};
use crate::proposer::{
    greatest, lemma_greatest, payload_of, ProposalDecision, ProposerView, RoundClass,
    StaleWavePolicy, Time, UnlockedView,
};

verus! {

/// A round ends a solid step.
pub open spec fn ends_step(p: ProposerView, round: Round) -> bool {
    round > 1 && (round as int) % (p.solid_step_length as int) == 0
}

/// A round lies within a solid step.
pub open spec fn is_inner(p: ProposerView, round: Round) -> bool {
    round > 1 && (round as int) % (p.solid_step_length as int) != 0
}

/// A round ends a wave.
pub open spec fn ends_wave(p: ProposerView, round: Round) -> bool {
    round > 1 && (round as int) % (p.solid_wave_length as int) == 0
}

/// The payload of a list of batches: the batches of the list, each with the worker that was named last
/// for it.
proof fn lemma_payload(digests: Seq<(Digest, WorkerId)>)
    ensures
        forall|d: Digest| #[trigger]
            payload_of(digests).contains_key(d) <==> exists|i: int|
                0 <= i < digests.len() && (#[trigger] digests[i]).0 == d,
        forall|i: int|
            0 <= i < digests.len() && is_last(digests, i) ==> payload_of(digests)[(
            #[trigger] digests[i]).0] == digests[i].1,
    decreases digests.len(),
{
    if digests.len() > 0 {
        let rest = digests.drop_last();
        let n = digests.len() - 1;
        lemma_payload(rest);
        assert(digests[n] == digests.last());
        assert forall|d: Digest| #[trigger] payload_of(digests).contains_key(d) <==> exists|i: int|
            0 <= i < digests.len() && (#[trigger] digests[i]).0 == d by {
            if payload_of(rest).contains_key(d) {
                let i = choose|i: int| 0 <= i < rest.len() && (#[trigger] rest[i]).0 == d;
                assert(digests[i].0 == d);
            }
            if d == digests.last().0 {
                assert(digests[n].0 == d);
            }
            if exists|i: int| 0 <= i < digests.len() && (#[trigger] digests[i]).0 == d {
                let i = choose|i: int| 0 <= i < digests.len() && (#[trigger] digests[i]).0 == d;
                if i < n {
                    assert(rest[i].0 == d);
                }
            }
        }
        assert forall|i: int| 0 <= i < digests.len() && is_last(digests, i) implies payload_of(
            digests,
        )[(#[trigger] digests[i]).0] == digests[i].1 by {
            if i < n {
                assert(digests[n].0 != digests[i].0);
                assert(rest[i] == digests[i]);
                assert(is_last(rest, i)) by {
                    assert forall|j: int| i < j < rest.len() implies (#[trigger] rest[j]).0
                        != rest[i].0 by {
                        assert(digests[j] == rest[j]);
                    }
                }
            }
        }
    }
}

/// A batch of a list is named no more after this place.
pub open spec fn is_last(digests: Seq<(Digest, WorkerId)>, i: int) -> bool {
    forall|j: int| i < j < digests.len() ==> (#[trigger] digests[j]).0 != digests[i].0
}

/// What a header carries. It is of the proposer, for the round, on the parents that are unlocked for
/// it, and with its id right; with a payload it takes all batches that wait, each with the worker named
/// last. In any round but the first it carries exactly the solid-step union and the solid-wave union
/// collected for it, whether or not it ends a step or a wave, and hands them on, but hands on itself
/// alone where it ends a step or a wave. In the first round it carries and hands on its parents.
pub proof fn lemma_header_carries(
    p: ProposerView,
    round: Round,
    state: UnlockedView,
    include_payload: bool,
)
    requires
        p.solid_step_length > 0,
        round > 1 ==> p.solid_wave_length > 0,
    ensures
        ({
            let h = p.header(round, state, include_payload);
            &&& h.author == p.name
            &&& h.round == round
            &&& h.id == h.digest()
            &&& forall|d: Digest| #[trigger]
                h.parents.contains(d) <==> exists|i: int|
                    0 <= i < state.parents.len() && #[trigger] state.parents[i] == d
            &&& !include_payload ==> h.payload == Map::<Digest, WorkerId>::empty()
            &&& include_payload ==> {
                &&& forall|d: Digest| #[trigger]
                    h.payload.contains_key(d) <==> exists|i: int|
                        0 <= i < p.digests.len() && (#[trigger] p.digests[i]).0 == d
                &&& forall|i: int|
                    0 <= i < p.digests.len() && is_last(p.digests, i) ==> h.payload[(
                    #[trigger] p.digests[i]).0] == p.digests[i].1
            }
            &&& round == 1 ==> h.solid_step_vertices == h.parents && h.solid_step_vertices_merged
                == h.parents && h.solid_wave_vertices == h.parents && h.solid_wave_vertices_merged
                == h.parents
            &&& round != 1 ==> {
                &&& h.solid_step_vertices == state.solid_step_union
                &&& h.solid_wave_vertices == state.solid_wave_union
                &&& forall|d: Digest| #[trigger]
                    h.solid_step_vertices_merged.contains(d) <==> if ends_step(p, round) {
                        d == h.id
                    } else {
                        state.solid_step_union.contains(d)
                    }
                &&& forall|d: Digest| #[trigger]
                    h.solid_wave_vertices_merged.contains(d) <==> if ends_wave(p, round) {
                        d == h.id
                    } else {
                        state.solid_wave_union.contains(d)
                    }
            }
        }),
{
    let h = p.header(round, state, include_payload);
    lemma_payload(p.digests);
    lemma_id_covers(h, HeaderView::bare(p.name, round, h.payload, h.parents));
    assert forall|d: Digest| #[trigger] h.parents.contains(d) <==> exists|i: int|
        0 <= i < state.parents.len() && #[trigger] state.parents[i] == d by {
        if h.parents.contains(d) {
            let i = choose|i: int| 0 <= i < state.parents.len() && state.parents[i] == d;
            assert(state.parents[i] == d);
        }
        if exists|i: int| 0 <= i < state.parents.len() && #[trigger] state.parents[i] == d {
            let i = choose|i: int| 0 <= i < state.parents.len() && #[trigger] state.parents[i] == d;
            assert(state.parents.contains(d));
        }
    }
}

/// A round waits to be proposed: it is unlocked with some parents, has not been proposed, and has
/// waited as long as rounds after the first are to wait.
pub open spec fn waits(p: ProposerView, round: Round, now: Time) -> bool {
    &&& p.unlocked_rounds.contains_key(round)
    &&& !p.proposed_rounds.contains(round)
    &&& p.unlocked_rounds[round].parents.len() > 0
    &&& round == 1 || p.parent_grace_delay == 0 || now >= p.unlocked_rounds[round].ready_since
        + p.parent_grace_delay
}

/// A waiting round goes before the others of a kind: it was unlocked before them.
pub open spec fn goes_first(
    p: ProposerView,
    round: Round,
    kind: spec_fn(Round) -> bool,
    now: Time,
) -> bool {
    &&& waits(p, round, now)
    &&& kind(round)
    &&& forall|r: Round| #[trigger]
        waits(p, r, now) && kind(r) ==> p.unlocked_rounds[round].unlock_order
            <= p.unlocked_rounds[r].unlock_order
}

/// What is proposed. The first round goes as soon as it waits, without a payload. Any other goes only
/// when the delay is over or there are enough batches; then one that ends a step goes if any batch
/// waits, or if no other waits, and one that does not in all other cases, and of each kind the one that
/// was unlocked first. It takes the batches if there are any. Nothing goes only if nothing can.
pub proof fn lemma_decides(p: ProposerView, timer_expired: bool, enough_digests: bool, now: Time)
    requires
        p.solid_step_length > 0,
    ensures
        ({
            let d = p.decision(timer_expired, enough_digests, now);
            let payload = p.digests.len() > 0;
            let critical = |r: Round| ends_step(p, r);
            let inner = |r: Round| r != 1 && !ends_step(p, r);
            let some_critical = exists|r: Round| #[trigger] waits(p, r, now) && critical(r);
            let some_inner = exists|r: Round| #[trigger] waits(p, r, now) && inner(r);
            if waits(p, 1, now) {
                d == Some(ProposalDecision { round: 1, include_payload: false })
            } else if !timer_expired && !enough_digests || !some_critical && !some_inner {
                d is None
            } else {
                &&& d is Some
                &&& d->0.include_payload == payload
                &&& if some_critical && (payload || !some_inner) {
                    goes_first(p, d->0.round, critical, now)
                } else {
                    goes_first(p, d->0.round, inner, now)
                }
            }
        }),
{
    let critical = |r: Round| ends_step(p, r);
    let inner = |r: Round| r != 1 && !ends_step(p, r);
    let boot = |r: Round| r == 1;
    assert forall|r: Round| #[trigger]
        p.candidates(RoundClass::Bootstrap, now).contains(r) == (waits(p, r, now) && boot(r)) by {}
    assert forall|r: Round| #[trigger]
        p.candidates(RoundClass::Critical, now).contains(r) == (waits(p, r, now) && critical(r)) by {}
    assert forall|r: Round| #[trigger]
        p.candidates(RoundClass::Intermediate, now).contains(r) == (waits(p, r, now) && inner(
            r,
        )) by {}
    lemma_first_kind(p, RoundClass::Bootstrap, boot, now);
    lemma_first_kind(p, RoundClass::Critical, critical, now);
    lemma_first_kind(p, RoundClass::Intermediate, inner, now);
    if waits(p, 1, now) {
        assert(waits(p, 1, now) && boot(1));
    }
}

/// The first candidate of a class is the waiting round of its kind that goes first.
proof fn lemma_first_kind(
    p: ProposerView,
    class: RoundClass,
    kind: spec_fn(Round) -> bool,
    now: Time,
)
    requires
        forall|r: Round| #[trigger]
            p.candidates(class, now).contains(r) == (waits(p, r, now) && kind(r)),
    ensures
        match p.first(p.candidates(class, now)) {
            Some(round) => goes_first(p, round, kind, now),
            None => !(exists|r: Round| #[trigger] waits(p, r, now) && kind(r)),
        },
{
    let rounds = p.candidates(class, now);
    lemma_first_of_class(p, class, now);
    match p.first(rounds) {
        Some(round) => {
            assert(rounds.contains(round));
            assert forall|r: Round| #[trigger] waits(p, r, now) && kind(r) implies
                p.unlocked_rounds[round].unlock_order <= p.unlocked_rounds[r].unlock_order by {
                assert(rounds.contains(r));
            }
        },
        None => {
            if exists|r: Round| #[trigger] waits(p, r, now) && kind(r) {
                let r = choose|r: Round| #[trigger] waits(p, r, now) && kind(r);
                assert(rounds.contains(r));
            }
        },
    }
}

/// The number of the wave that a round belongs to: the first has the first rounds, and waves without
/// rounds are all the first.
pub open spec fn wave_number(p: ProposerView, round: Round) -> int {
    if round == 0 || p.solid_wave_length == 0 {
        0
    } else {
        (round - 1) / (p.solid_wave_length as int)
    }
}

/// A round ends a step of a wave.
pub open spec fn ends_step_of(p: ProposerView, wave: int, round: Round) -> bool {
    ends_step(p, round) && wave_number(p, round) == wave
}

/// A round of a wave that is behind is kept. Once a round that ends a step of the wave has been
/// proposed, only the last one that ends a step of it and has not been is kept. Before that only the
/// last one that ends a step of it and is unlocked is, and any if there is none.
pub open spec fn is_worth(p: ProposerView, round: Round) -> bool {
    let wave = wave_number(p, round);
    let proposed = exists|r: Round| #[trigger]
        p.proposed_rounds.contains(r) && ends_step_of(p, wave, r);
    let unlocked = exists|r: Round| #[trigger]
        p.unlocked_rounds.contains_key(r) && ends_step_of(p, wave, r);
    if proposed {
        &&& ends_step_of(p, wave, round)
        &&& !p.proposed_rounds.contains(round)
        &&& forall|r: Round| #[trigger]
            ends_step_of(p, wave, r) && !p.proposed_rounds.contains(r) ==> r <= round
    } else if unlocked {
        &&& ends_step_of(p, wave, round)
        &&& p.unlocked_rounds.contains_key(round)
        &&& forall|r: Round| #[trigger]
            ends_step_of(p, wave, r) && p.unlocked_rounds.contains_key(r) ==> r <= round
    } else {
        true
    }
}

/// The rounds from the start of a wave to its end are those that belong to it.
proof fn lemma_wave_rounds(p: ProposerView, round: Round, r: Round)
    requires
        p.solid_wave_length > 0,
        r > 0,
    ensures
        p.wave(round) == wave_number(p, round),
        p.wave(r) == wave_number(p, r),
        ({
            let wave = p.wave(round);
            (p.wave_start(wave) <= r <= p.wave_end(wave)) == (wave_number(p, r) == wave)
        }),
{
    let w = p.solid_wave_length as int;
    let a = if round == 0 {
        0
    } else {
        round - 1
    };
    let b = r - 1;
    vstd::arithmetic::div_mod::lemma_fundamental_div_mod(a, w);
    vstd::arithmetic::div_mod::lemma_fundamental_div_mod(b, w);
    vstd::arithmetic::div_mod::lemma_mod_bound(a, w);
    vstd::arithmetic::div_mod::lemma_mod_bound(b, w);
    vstd::arithmetic::div_mod::lemma_div_pos_is_pos(a, w);
    vstd::arithmetic::div_mod::lemma_div_pos_is_pos(b, w);
    assert(0int / w == 0) by (nonlinear_arith)
        requires
            w > 0,
    ;
    let x = a / w;
    let y = b / w;
    assert(x <= a && y <= b) by (nonlinear_arith)
        requires
            a >= w * x,
            b >= w * y,
            w > 0,
            x >= 0,
            y >= 0,
    ;
    assert(x * w == w * x) by (nonlinear_arith);
    assert((w * x <= b < w * x + w) == (x == y)) by (nonlinear_arith)
        requires
            b == w * y + b % w,
            0 <= b % w < w,
            w > 0,
    ;
    let wave = p.wave(round);
    assert(wave == x);
    assert(wave * p.solid_wave_length == w * x);
    assert(p.wave_start(wave) == w * x + 1);
}

/// The sets of rounds that the fate of a wave rests on, told by the rounds that belong to it.
proof fn lemma_wave_sets(p: ProposerView, round: Round)
    requires
        p.solid_step_length > 0,
        p.solid_wave_length > 0,
    ensures
        ({
            let wave = p.wave(round);
            &&& wave == wave_number(p, round)
            &&& forall|r: Round| #[trigger]
                p.unfinished_critical(wave).contains(r) == (ends_step_of(p, wave as int, r)
                    && !p.proposed_rounds.contains(r))
            &&& forall|r: Round| #[trigger]
                p.unlocked_critical(wave).contains(r) == (ends_step_of(p, wave as int, r)
                    && p.unlocked_rounds.contains_key(r))
            &&& p.has_proposed_critical(wave) == (exists|r: Round| #[trigger]
                p.proposed_rounds.contains(r) && ends_step_of(p, wave as int, r))
        }),
{
    let wave = p.wave(round);
    lemma_wave_rounds(p, round, 1);
    assert forall|r: Round| ends_step(p, r) implies p.wave(r) == wave_number(p, r) && (p.wave_start(
        wave,
    ) <= r <= p.wave_end(wave)) == #[trigger] ends_step_of(p, wave as int, r) by {
        lemma_wave_rounds(p, round, r);
    }
    let unfinished = p.unfinished_critical(wave);
    let unlocked = p.unlocked_critical(wave);
    assert forall|r: Round| #[trigger]
        unfinished.contains(r) == (ends_step_of(p, wave as int, r) && !p.proposed_rounds.contains(
            r,
        )) by {
        if ends_step(p, r) {
            lemma_wave_rounds(p, round, r);
        }
    }
    assert forall|r: Round| #[trigger]
        unlocked.contains(r) == (ends_step_of(p, wave as int, r) && p.unlocked_rounds.contains_key(
            r,
        )) by {
        if ends_step(p, r) {
            lemma_wave_rounds(p, round, r);
        }
    }
    assert(p.has_proposed_critical(wave) == (exists|r: Round| #[trigger]
        p.proposed_rounds.contains(r) && ends_step_of(p, wave as int, r))) by {
        if p.has_proposed_critical(wave) {
            let r = choose|r: Round| #[trigger]
                p.proposed_rounds.contains(r) && p.wave(r) == wave && p.is_critical(r);
            assert(ends_step(p, r));
            lemma_wave_rounds(p, round, r);
        }
        if exists|r: Round| #[trigger]
            p.proposed_rounds.contains(r) && ends_step_of(p, wave as int, r) {
            let r = choose|r: Round| #[trigger]
                p.proposed_rounds.contains(r) && ends_step_of(p, wave as int, r);
            assert(p.wave(r) == wave && p.is_critical(r));
        }
    }
}

/// Which rounds survive: those of the latest wave that has been seen, or of a later one, and those of
/// a wave behind it that are kept.
pub proof fn lemma_survives(p: ProposerView, round: Round)
    requires
        p.solid_step_length > 0,
        p.solid_wave_length > 0 || p.latest_observed_wave == 0,
    ensures
        p.survives(round) == (wave_number(p, round) >= p.latest_observed_wave || is_worth(p, round)),
        p.wave(round) == wave_number(p, round),
{
    if p.solid_wave_length > 0 {
        let wave = p.wave(round);
        lemma_wave_sets(p, round);
        let unfinished = p.unfinished_critical(wave);
        let unlocked = p.unlocked_critical(wave);
        lemma_kept_greatest(unfinished, round);
        lemma_kept_greatest(unlocked, round);
        if exists|r: Round| #[trigger] unlocked.contains(r) {
            let r = choose|r: Round| #[trigger] unlocked.contains(r);
            assert(p.unlocked_rounds.contains_key(r) && ends_step_of(p, wave as int, r));
        }
        if exists|r: Round| #[trigger]
            p.unlocked_rounds.contains_key(r) && ends_step_of(p, wave as int, r) {
            let r = choose|r: Round| #[trigger]
                p.unlocked_rounds.contains_key(r) && ends_step_of(p, wave as int, r);
            assert(unlocked.contains(r));
        }
        assert((unfinished.contains(round) && forall|x: Round| #[trigger]
            unfinished.contains(x) ==> x <= round) == (ends_step_of(p, wave as int, round)
            && !p.proposed_rounds.contains(round) && forall|r: Round| #[trigger]
            ends_step_of(p, wave as int, r) && !p.proposed_rounds.contains(r) ==> r <= round)) by {
            if forall|x: Round| #[trigger] unfinished.contains(x) ==> x <= round {
                assert forall|r: Round| #[trigger]
                    ends_step_of(p, wave as int, r) && !p.proposed_rounds.contains(r) implies r
                    <= round by {
                    assert(unfinished.contains(r));
                }
            }
            if forall|r: Round| #[trigger]
                ends_step_of(p, wave as int, r) && !p.proposed_rounds.contains(r) ==> r <= round {
                assert forall|x: Round| #[trigger] unfinished.contains(x) implies x <= round by {
                    assert(ends_step_of(p, wave as int, x));
                }
            }
        }
        assert((unlocked.contains(round) && forall|x: Round| #[trigger]
            unlocked.contains(x) ==> x <= round) == (ends_step_of(p, wave as int, round)
            && p.unlocked_rounds.contains_key(round) && forall|r: Round| #[trigger]
            ends_step_of(p, wave as int, r) && p.unlocked_rounds.contains_key(r) ==> r <= round)) by {
            if forall|x: Round| #[trigger] unlocked.contains(x) ==> x <= round {
                assert forall|r: Round| #[trigger]
                    ends_step_of(p, wave as int, r) && p.unlocked_rounds.contains_key(r) implies r
                    <= round by {
                    assert(unlocked.contains(r));
                }
            }
            if forall|r: Round| #[trigger]
                ends_step_of(p, wave as int, r) && p.unlocked_rounds.contains_key(r) ==> r <= round {
                assert forall|x: Round| #[trigger] unlocked.contains(x) implies x <= round by {
                    assert(ends_step_of(p, wave as int, x));
                }
            }
        }
    }
}

/// A round is the greatest of a set exactly if it is in it and no other is greater.
proof fn lemma_kept_greatest(rounds: Set<Round>, round: Round)
    ensures
        (greatest(rounds) == Some(round)) == (rounds.contains(round) && forall|x: Round| #[trigger]
            rounds.contains(x) ==> x <= round),
        greatest(rounds) is None == !(exists|r: Round| #[trigger] rounds.contains(r)),
{
    if exists|r: Round| #[trigger] rounds.contains(r) {
        let r = choose|r: Round| #[trigger] rounds.contains(r);
        let g = lemma_greatest_exists(rounds, r);
    }
    if rounds.contains(round) && forall|x: Round| #[trigger] rounds.contains(x) ==> x <= round {
        lemma_greatest(rounds, round);
    }
}

/// An unlocked round outlives parents for another round: it is not left behind by the wave of that
/// round, where that is a later wave than any seen before.
pub open spec fn outlives(p: ProposerView, round: Round, r: Round) -> bool {
    &&& p.unlocked_rounds.contains_key(r)
    &&& wave_number(p, round) > p.latest_observed_wave ==> wave_number(p, r) >= wave_number(p, round)
        || is_worth(p, r)
}

/// A later round that ends a step has been proposed, or is unlocked and outlives parents for a round.
pub open spec fn is_overtaken(p: ProposerView, round: Round) -> bool {
    is_inner(p, round) && exists|c: Round| #[trigger]
        ends_step(p, c) && c > round && (p.proposed_rounds.contains(c) || outlives(p, round, c))
}

/// What parents for a round do. Where the round does not survive, it is locked, and nothing else
/// happens. Otherwise its wave has been seen, and what is left behind by that goes. A round that has
/// been proposed stays so. One within a step is locked if a later round that ends a step is unlocked
/// or has been proposed. Any other is unlocked by the parents, or gets them and their unions added to
/// those it has; and one that ends a step locks those within steps before it.
pub proof fn lemma_unlocks(p: ProposerView, round: Round, update: ProposalParentsView, now: Time)
    requires
        p.solid_step_length > 0,
        p.solid_wave_length > 0 || p.latest_observed_wave == 0,
        p.next_unlock_order < u64::MAX,
    ensures
        ({
            let q = p.unlocked(round, update, now);
            let lives = wave_number(p, round) >= p.latest_observed_wave || is_worth(p, round);
            let taken = lives && !p.proposed_rounds.contains(round) && !is_overtaken(p, round);
            let known = outlives(p, round, round);
            let before = p.unlocked_rounds[round];
            let after = q.unlocked_rounds[round];
            &&& q == (ProposerView {
                unlocked_rounds: q.unlocked_rounds,
                next_unlock_order: if taken && !known {
                    (p.next_unlock_order + 1) as u64
                } else {
                    p.next_unlock_order
                },
                latest_observed_wave: q.latest_observed_wave,
                ..p
            })
            &&& q.latest_observed_wave == if lives && wave_number(p, round)
                > p.latest_observed_wave {
                wave_number(p, round)
            } else {
                p.latest_observed_wave as int
            }
            &&& forall|r: Round|
                r != round ==> #[trigger] q.unlocked_rounds.contains_key(r) == (if lives {
                    outlives(p, round, r) && !(taken && ends_step(p, round) && is_inner(p, r) && r
                        < round)
                } else {
                    p.unlocked_rounds.contains_key(r)
                }) && (q.unlocked_rounds.contains_key(r) ==> q.unlocked_rounds[r]
                    == p.unlocked_rounds[r])
            &&& q.unlocked_rounds.contains_key(round) == (taken || (lives
                && p.proposed_rounds.contains(round) && known))
            &&& !taken && q.unlocked_rounds.contains_key(round) ==> after == before
            &&& taken && !known ==> after == (UnlockedView {
                parents: update.parents,
                solid_step_union: update.solid_step_union,
                solid_wave_union: update.solid_wave_union,
                ready_since: now,
                unlock_order: p.next_unlock_order,
            })
            &&& taken && known ==> after == (UnlockedView {
                parents: ordered(before.parents.to_set().union(update.parents.to_set())),
                solid_step_union: before.solid_step_union.union(update.solid_step_union),
                solid_wave_union: before.solid_wave_union.union(update.solid_wave_union),
                ..before
            })
        }),
{
    let q = p.unlocked(round, update, now);
    lemma_survives(p, round);
    let wave = p.wave(round);
    let later = wave > p.latest_observed_wave;
    let marked = ProposerView { latest_observed_wave: wave, ..p };
    let seen = p.observed(wave);
    assert forall|r: Round| #[trigger] outlives(p, round, r) == seen.unlocked_rounds.contains_key(
        r,
    ) && (seen.unlocked_rounds.contains_key(r) ==> seen.unlocked_rounds[r]
        == p.unlocked_rounds[r]) by {
        if later {
            lemma_survives(marked, r);
            lemma_same_worth(p, marked, r);
        }
    }
    assert forall|r: Round| seen.unlocked_rounds.contains_key(r) == #[trigger] outlives(
        p,
        round,
        r,
    ) by {}
    assert(seen.is_obsolete(round) == is_overtaken(p, round)) by {
        if seen.is_obsolete(round) {
            let c = choose|c: Round| #[trigger]
                seen.is_known(c) && seen.is_critical(c) && c >= seen.step_end(round);
            lemma_before_step_end(p, c, round);
            assert(ends_step(p, c) && c > round);
            assert(outlives(p, round, c) || p.proposed_rounds.contains(c));
        }
        if is_overtaken(p, round) {
            let c = choose|c: Round| #[trigger]
                ends_step(p, c) && c > round && (p.proposed_rounds.contains(c) || outlives(
                    p,
                    round,
                    c,
                ));
            lemma_before_step_end(p, c, round);
            assert(seen.is_known(c) && seen.is_critical(c) && c >= seen.step_end(round));
        }
    }
    assert forall|r: Round|
        r != round implies #[trigger] q.unlocked_rounds.contains_key(r) == (if p.survives(round) {
        outlives(p, round, r) && !((p.survives(round) && !p.proposed_rounds.contains(round)
            && !is_overtaken(p, round)) && ends_step(p, round) && is_inner(p, r) && r < round)
    } else {
        p.unlocked_rounds.contains_key(r)
    }) && (q.unlocked_rounds.contains_key(r) ==> q.unlocked_rounds[r]
        == p.unlocked_rounds[r]) by {
        assert(outlives(p, round, r) == seen.unlocked_rounds.contains_key(r));
        if ends_step(p, round) && is_inner(p, r) {
            lemma_before_step_end(p, round, r);
        }
    }
    assert(outlives(p, round, round) == seen.unlocked_rounds.contains_key(round));
    assert(!(seen.is_critical(round) && seen.is_intermediate(round)));
}

/// Whether a round is kept does not depend on the wave seen.
proof fn lemma_same_worth(p: ProposerView, q: ProposerView, r: Round)
    requires
        q == (ProposerView { latest_observed_wave: q.latest_observed_wave, ..p }),
    ensures
        is_worth(p, r) == is_worth(q, r),
        wave_number(p, r) == wave_number(q, r),
{
    if is_worth(p, r) {
        lemma_worth_passes(p, q, r);
    }
    if is_worth(q, r) {
        lemma_worth_passes(q, p, r);
    }
}

/// A round that is kept is kept whatever wave is seen.
proof fn lemma_worth_passes(p: ProposerView, q: ProposerView, r: Round)
    requires
        q == (ProposerView { latest_observed_wave: q.latest_observed_wave, ..p }),
        is_worth(p, r),
    ensures
        is_worth(q, r),
{
    let wave = wave_number(p, r);
    assert forall|x: Round| ends_step_of(p, wave, x) == #[trigger] ends_step_of(q, wave, x) by {}
    if exists|x: Round| #[trigger] q.proposed_rounds.contains(x) && ends_step_of(q, wave, x) {
        let x = choose|x: Round| #[trigger]
            q.proposed_rounds.contains(x) && ends_step_of(q, wave, x);
        assert(p.proposed_rounds.contains(x) && ends_step_of(p, wave, x));
    }
    if exists|x: Round| #[trigger] q.unlocked_rounds.contains_key(x) && ends_step_of(q, wave, x) {
        let x = choose|x: Round| #[trigger]
            q.unlocked_rounds.contains_key(x) && ends_step_of(q, wave, x);
        assert(p.unlocked_rounds.contains_key(x) && ends_step_of(p, wave, x));
    }
    if exists|x: Round| #[trigger] p.proposed_rounds.contains(x) && ends_step_of(p, wave, x) {
        let x = choose|x: Round| #[trigger]
            p.proposed_rounds.contains(x) && ends_step_of(p, wave, x);
        assert(q.proposed_rounds.contains(x) && ends_step_of(q, wave, x));
    }
    if exists|x: Round| #[trigger] p.unlocked_rounds.contains_key(x) && ends_step_of(p, wave, x) {
        let x = choose|x: Round| #[trigger]
            p.unlocked_rounds.contains_key(x) && ends_step_of(p, wave, x);
        assert(q.unlocked_rounds.contains_key(x) && ends_step_of(q, wave, x));
    }
}

/// What becomes of a wave that is behind. All of it is kept exactly if none of its rounds that end a
/// step has been proposed or is unlocked. One round is kept exactly if it is the last of those that
/// end a step of the wave and, once one of them has been proposed, have not been, or, before that, are
/// unlocked. Otherwise all of them have been proposed, and the wave is dropped.
pub proof fn lemma_policy(p: ProposerView, round: Round)
    requires
        p.solid_step_length > 0,
        p.solid_wave_length > 0,
    ensures
        ({
            let wave = wave_number(p, round);
            let proposed = exists|r: Round| #[trigger]
                p.proposed_rounds.contains(r) && ends_step_of(p, wave, r);
            let candidate = |r: Round|
                if proposed {
                    !p.proposed_rounds.contains(r)
                } else {
                    p.unlocked_rounds.contains_key(r)
                };
            let some = exists|r: Round| #[trigger] ends_step_of(p, wave, r) && candidate(r);
            match p.policy(wave as Round) {
                StaleWavePolicy::KeepWholeWave => !proposed && !some,
                StaleWavePolicy::KeepOnlyRound(k) => ends_step_of(p, wave, k) && candidate(k)
                    && forall|r: Round| #[trigger]
                    ends_step_of(p, wave, r) && candidate(r) ==> r <= k,
                StaleWavePolicy::DropWholeWave => proposed && !some,
            }
        }),
{
    let wave = p.wave(round);
    lemma_wave_sets(p, round);
    let proposed = exists|r: Round| #[trigger]
        p.proposed_rounds.contains(r) && ends_step_of(p, wave as int, r);
    let candidate = |r: Round|
        if proposed {
            !p.proposed_rounds.contains(r)
        } else {
            p.unlocked_rounds.contains_key(r)
        };
    let rounds = if proposed {
        p.unfinished_critical(wave)
    } else {
        p.unlocked_critical(wave)
    };
    assert forall|r: Round| #[trigger]
        rounds.contains(r) == (ends_step_of(p, wave as int, r) && candidate(r)) by {}
    match greatest(rounds) {
        Some(k) => {
            lemma_kept_greatest(rounds, k);
            assert forall|r: Round| #[trigger]
                ends_step_of(p, wave as int, r) && candidate(r) implies r <= k by {
                assert(rounds.contains(r));
            }
        },
        None => {
            lemma_kept_greatest(rounds, 0);
            assert forall|r: Round| #[trigger] ends_step_of(p, wave as int, r) implies !candidate(
                r,
            ) by {
                assert(!rounds.contains(r));
            }
        },
    }
}

/// A round is not left behind: it is of the latest wave seen, or of a later one, or is kept.
pub open spec fn is_fresh(p: ProposerView, round: Round) -> bool {
    wave_number(p, round) >= p.latest_observed_wave || is_worth(p, round)
}

/// What a moment does. First the rounds that are left behind go, and nothing else changes. Then, if a
/// round is to be proposed, its header is made of what is unlocked for it; the round is proposed and
/// no more unlocked; its wave has been seen; the batches go if it takes them; and if it takes them and
/// ends a step, the rounds within steps before it go.
pub proof fn lemma_polls(p: ProposerView, now: Time, payload_deadline: Time)
    requires
        p.solid_step_length > 0,
        p.solid_wave_length > 0 || p.latest_observed_wave == 0,
    ensures
        ({
            let fresh = ProposerView {
                unlocked_rounds: p.unlocked_rounds.restrict(Set::new(|r: Round| is_fresh(p, r))),
                ..p
            };
            let (q, header) = p.polled(now, payload_deadline);
            &&& p.without_stale() == fresh
            &&& match fresh.decision(
                now >= payload_deadline,
                p.payload_size >= p.header_size,
                now,
            ) {
                None => q == fresh && header is None,
                Some(d) => {
                    &&& header == Some(
                        fresh.header(d.round, fresh.unlocked_rounds[d.round], d.include_payload),
                    )
                    &&& q == (ProposerView {
                        unlocked_rounds: q.unlocked_rounds,
                        proposed_rounds: p.proposed_rounds.insert(d.round),
                        latest_observed_wave: q.latest_observed_wave,
                        digests: q.digests,
                        payload_size: q.payload_size,
                        ..p
                    })
                    &&& q.latest_observed_wave == if wave_number(p, d.round)
                        > p.latest_observed_wave {
                        wave_number(p, d.round)
                    } else {
                        p.latest_observed_wave as int
                    }
                    &&& if d.include_payload {
                        q.digests.len() == 0 && q.payload_size == 0
                    } else {
                        q.digests == p.digests && q.payload_size == p.payload_size
                    }
                    &&& forall|r: Round| #[trigger]
                        q.unlocked_rounds.contains_key(r) <==> p.unlocked_rounds.contains_key(r)
                            && is_fresh(p, r) && r != d.round && !(d.include_payload && ends_step(
                            p,
                            d.round,
                        ) && is_inner(p, r) && r < d.round)
                    &&& forall|r: Round| #[trigger]
                        q.unlocked_rounds.contains_key(r) ==> q.unlocked_rounds[r]
                            == p.unlocked_rounds[r]
                },
            }
        }),
{
    let fresh = ProposerView {
        unlocked_rounds: p.unlocked_rounds.restrict(Set::new(|r: Round| is_fresh(p, r))),
        ..p
    };
    assert(p.without_stale().unlocked_rounds =~= fresh.unlocked_rounds) by {
        assert forall|r: Round| p.survives(r) == #[trigger] is_fresh(p, r) by {
            lemma_survives(p, r);
        }
    }
    assert(p.without_stale() == fresh);
    let q = p.polled(now, payload_deadline).0;
    match fresh.decision(now >= payload_deadline, p.payload_size >= p.header_size, now) {
        Some(d) => {
            lemma_survives(fresh, d.round);
            assert(wave_number(fresh, d.round) == wave_number(p, d.round));
            assert forall|r: Round| #[trigger]
                q.unlocked_rounds.contains_key(r) <==> p.unlocked_rounds.contains_key(r)
                    && is_fresh(p, r) && r != d.round && !(d.include_payload && ends_step(p, d.round)
                    && is_inner(p, r) && r < d.round) by {
                if ends_step(p, d.round) && is_inner(p, r) {
                    lemma_before_step_end(p, d.round, r);
                }
            }
        },
        None => {},
    }
}

/// A batch that arrives waits behind the others, and the payload grows by the size of a digest.
pub proof fn lemma_batch_waits(p: ProposerView, digest: Digest, worker: WorkerId)
    requires
        p.payload_size + 32 <= usize::MAX,
    ensures
        ({
            let q = p.with_batch(digest, worker);
            &&& q == (ProposerView { digests: q.digests, payload_size: q.payload_size, ..p })
            &&& q.digests == p.digests.push((digest, worker))
            &&& q.payload_size == p.payload_size + 32
        }),
{
}

/// How a proposer starts: the first round alone is unlocked, nothing has been proposed, no batch
/// waits, and no round is made to wait for late parents.
pub proof fn lemma_starts(
    name: PublicKey,
    committee: &Committee,
    header_size: usize,
    max_header_delay: u64,
    now: Time,
)
    ensures
        ({
            let p = ProposerView::started(name, committee, header_size, max_header_delay, now);
            &&& p.name == name && p.header_size == header_size && p.max_header_delay
                == max_header_delay
            &&& p.solid_step_length == committee.solid_step_length && p.solid_wave_length
                == committee.solid_wave_length
            &&& forall|r: Round| #[trigger] p.unlocked_rounds.contains_key(r) <==> r == 1
            &&& p.unlocked_rounds[1].ready_since == now
            &&& p.unlocked_rounds[1].unlock_order < p.next_unlock_order
            &&& p.proposed_rounds == Set::<Round>::empty()
            &&& p.digests.len() == 0 && p.payload_size == 0
            &&& p.latest_observed_wave == 0
            &&& p.parent_grace_delay == 0
        }),
{
}

/// The classes of rounds, and where the step of a round within it ends: with the next round that
/// ends one.
pub proof fn lemma_classes(p: ProposerView, round: Round)
    requires
        p.solid_step_length > 0,
    ensures
        p.class(round) == if round == 1 {
            RoundClass::Bootstrap
        } else if ends_step(p, round) {
            RoundClass::Critical
        } else {
            RoundClass::Intermediate
        },
        p.is_critical(round) == ends_step(p, round),
        p.is_intermediate(round) == is_inner(p, round),
        round < p.step_end(round) <= round + p.solid_step_length,
        p.step_end(round) % (p.solid_step_length as int) == 0,
{
    let length = p.solid_step_length as int;
    let k = (round as int) / length + 1;
    vstd::arithmetic::div_mod::lemma_fundamental_div_mod(round as int, length);
    vstd::arithmetic::div_mod::lemma_mod_bound(round as int, length);
    assert(k * length == length * ((round as int) / length) + length) by (nonlinear_arith)
        requires
            k == (round as int) / length + 1,
    ;
    vstd::arithmetic::div_mod::lemma_mod_multiples_basic(k, length);
}

/// What is asked of single rounds. A round waits if it is unlocked with parents and not proposed, and is
/// ready from when it was unlocked on, after the wait for late parents; the first one is always ready.
/// A round that ends a step has started once it, or a later one, is unlocked or proposed. A round that
/// ends a step takes with it those within steps that end by then, and nothing else.
pub proof fn lemma_single_rounds(p: ProposerView, round: Round, critical_round: Round, now: Time)
    requires
        p.solid_step_length > 0,
    ensures
        p.is_waiting(round) <==> p.unlocked_rounds.contains_key(round)
            && !p.proposed_rounds.contains(round) && p.unlocked_rounds[round].parents.len() > 0,
        p.ready_at(round, now) == if round == 1 {
            now as int
        } else {
            p.unlocked_rounds[round].ready_since + p.parent_grace_delay
        },
        p.has_started(round as int) <==> exists|c: Round| #[trigger]
            ends_step(p, c) && c >= round && (p.unlocked_rounds.contains_key(c)
                || p.proposed_rounds.contains(c)),
        p.is_obsolete(round) <==> is_inner(p, round) && exists|c: Round| #[trigger]
            ends_step(p, c) && c > round && (p.unlocked_rounds.contains_key(c)
                || p.proposed_rounds.contains(c)),
        ({
            let q = p.without_obsolete(critical_round);
            &&& q == (ProposerView { unlocked_rounds: q.unlocked_rounds, ..p })
            &&& forall|r: Round| #[trigger]
                q.unlocked_rounds.contains_key(r) <==> p.unlocked_rounds.contains_key(r) && !(
                is_inner(p, r) && exists|e: int|
                    r < e <= critical_round && #[trigger] (e % (p.solid_step_length as int)) == 0)
            &&& forall|r: Round| #[trigger]
                q.unlocked_rounds.contains_key(r) ==> q.unlocked_rounds[r] == p.unlocked_rounds[r]
        }),
        p.wave(round) == wave_number(p, round),
{
    if p.has_started(round as int) {
        let c = choose|c: Round| #[trigger]
            p.is_known(c) && p.is_critical(c) && c >= round as int;
        assert(ends_step(p, c));
    }
    if exists|c: Round| #[trigger]
        ends_step(p, c) && c >= round && (p.unlocked_rounds.contains_key(c)
            || p.proposed_rounds.contains(c)) {
        let c = choose|c: Round| #[trigger]
            ends_step(p, c) && c >= round && (p.unlocked_rounds.contains_key(c)
                || p.proposed_rounds.contains(c));
        assert(p.is_known(c) && p.is_critical(c));
    }
    if p.is_obsolete(round) {
        let c = choose|c: Round| #[trigger]
            p.is_known(c) && p.is_critical(c) && c >= p.step_end(round);
        lemma_before_step_end(p, c, round);
        assert(ends_step(p, c));
    }
    if is_inner(p, round) && exists|c: Round| #[trigger]
        ends_step(p, c) && c > round && (p.unlocked_rounds.contains_key(c)
            || p.proposed_rounds.contains(c)) {
        let c = choose|c: Round| #[trigger]
            ends_step(p, c) && c > round && (p.unlocked_rounds.contains_key(c)
                || p.proposed_rounds.contains(c));
        lemma_before_step_end(p, c, round);
        assert(p.is_known(c) && p.is_critical(c));
    }
    let q = p.without_obsolete(critical_round);
    let length = p.solid_step_length as int;
    assert forall|r: Round| #[trigger]
        q.unlocked_rounds.contains_key(r) <==> p.unlocked_rounds.contains_key(r) && !(is_inner(p, r)
            && exists|e: int| r < e <= critical_round && #[trigger] (e % length) == 0) by {
        lemma_classes(p, r);
        if p.step_end(r) <= critical_round {
            assert(p.step_end(r) % length == 0);
        }
        if exists|e: int| r < e <= critical_round && #[trigger] (e % length) == 0 {
            let e = choose|e: int| r < e <= critical_round && #[trigger] (e % length) == 0;
            lemma_next_multiple(r as int, e, length);
        }
    }
    if p.solid_wave_length > 0 {
        lemma_wave_rounds(p, round, 1);
    }
}

/// No multiple lies between a number and the next multiple after it.
proof fn lemma_next_multiple(r: int, e: int, length: int)
    requires
        length > 0,
        r < e,
        e % length == 0,
    ensures
        (r / length + 1) * length <= e,
{
    vstd::arithmetic::div_mod::lemma_fundamental_div_mod(e, length);
    vstd::arithmetic::div_mod::lemma_fundamental_div_mod(r, length);
    vstd::arithmetic::div_mod::lemma_mod_bound(r, length);
    let x = r / length;
    let y = e / length;
    assert(x < y) by (nonlinear_arith)
        requires
            length * x <= r,
            r < e,
            e == length * y,
            length > 0,
    ;
    assert((x + 1) * length <= length * y) by (nonlinear_arith)
        requires
            x + 1 <= y,
            length > 0,
    ;
}

} // verus!
