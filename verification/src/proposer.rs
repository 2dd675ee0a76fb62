//! Deciding which round to propose next, and building the header.
use vstd::prelude::*;

use crate::collections::{KeyMap, KeySet};
use crate::committee::{Committee, Round, WorkerId};
use crate::crypto::{Digest, PublicKey};
use crate::dag::lemma_push_contains;
use crate::keys::ordered;
use crate::messages::{
    Certificate, CertificateView, Header, HeaderView, ProposalParents, ProposalParentsView,
};

verus! {

/// Nanoseconds since some moment before the proposer starts.
pub type Time = u128;

/// How long a round waits after it is unlocked, so that late certificates can still join its
/// parents. There is no wait: a round can be proposed as soon as it is unlocked.
pub const PARENT_GRACE_DELAY: Time = 0;

/// How many nanoseconds a millisecond has.
pub const MILLISECOND: Time = 1_000_000;

/// The bytes of a digest.
pub const DIGEST_SIZE: usize = 32;

/// A round that can be proposed.
pub struct UnlockedRound {
    pub parents: Vec<Digest>,
    pub solid_step_union: KeySet<Digest>,
    pub solid_wave_union: KeySet<Digest>,
    /// When the round was unlocked.
    pub ready_since: Time,
    /// How many rounds were unlocked before it.
    pub unlock_order: u64,
}

/// What an unlocked round holds.
#[verifier::ext_equal]
pub struct UnlockedView {
    pub parents: Seq<Digest>,
    pub solid_step_union: Set<Digest>,
    pub solid_wave_union: Set<Digest>,
    pub ready_since: Time,
    pub unlock_order: u64,
}

impl View for UnlockedRound {
    type V = UnlockedView;

    open spec fn view(&self) -> UnlockedView {
        UnlockedView {
            parents: self.parents@,
            solid_step_union: self.solid_step_union@,
            solid_wave_union: self.solid_wave_union@,
            ready_since: self.ready_since,
            unlock_order: self.unlock_order,
        }
    }
}

/// The part that a round plays.
#[derive(Clone, Copy, Debug, PartialEq, Eq, Structural)]
pub enum RoundClass {
    /// The first round.
    Bootstrap,
    /// A round that ends a solid step.
    Critical,
    /// Any other round.
    Intermediate,
}

/// What to propose.
#[derive(Clone, Copy, Debug, PartialEq, Eq, Structural)]
pub struct ProposalDecision {
    pub round: Round,
    pub include_payload: bool,
}

/// What becomes of the rounds of a wave once a later wave has been seen.
#[derive(Clone, Copy, Debug, PartialEq, Eq, Structural)]
pub enum StaleWavePolicy {
    KeepWholeWave,
    KeepOnlyRound(Round),
    DropWholeWave,
}

/// Proposes the headers of one authority.
pub struct Proposer {
    name: PublicKey,
    /// How many bytes of digests make a payload.
    header_size: usize,
    /// How many milliseconds to wait for a payload.
    max_header_delay: u64,
    /// The rounds that can be proposed.
    unlocked_rounds: KeyMap<Round, UnlockedRound>,
    /// The rounds that have been proposed.
    proposed_rounds: KeySet<Round>,
    /// How many rounds have been unlocked.
    next_unlock_order: u64,
    /// The batches that wait for a header.
    digests: Vec<(Digest, WorkerId)>,
    /// The bytes of the digests of these batches.
    payload_size: usize,
    solid_step_length: u64,
    solid_wave_length: u64,
    parent_grace_delay: Time,
    /// The latest wave seen. What comes for an earlier one is stale.
    latest_observed_wave: Round,
}

/// What a proposer holds.
#[verifier::ext_equal]
pub struct ProposerView {
    pub name: PublicKey,
    pub header_size: usize,
    pub max_header_delay: u64,
    pub unlocked_rounds: Map<Round, UnlockedView>,
    pub proposed_rounds: Set<Round>,
    pub next_unlock_order: u64,
    pub digests: Seq<(Digest, WorkerId)>,
    pub payload_size: usize,
    pub solid_step_length: u64,
    pub solid_wave_length: u64,
    pub parent_grace_delay: Time,
    pub latest_observed_wave: Round,
}

/// What the unlocked rounds of a map hold.
spec fn unlocked_view(rounds: Map<Round, UnlockedRound>) -> Map<Round, UnlockedView> {
    rounds.map_values(|state: UnlockedRound| state@)
}

impl View for Proposer {
    type V = ProposerView;

    closed spec fn view(&self) -> ProposerView {
        ProposerView {
            name: self.name,
            header_size: self.header_size,
            max_header_delay: self.max_header_delay,
            unlocked_rounds: unlocked_view(self.unlocked_rounds@),
            proposed_rounds: self.proposed_rounds@,
            next_unlock_order: self.next_unlock_order,
            digests: self.digests@,
            payload_size: self.payload_size,
            solid_step_length: self.solid_step_length,
            solid_wave_length: self.solid_wave_length,
            parent_grace_delay: self.parent_grace_delay,
            latest_observed_wave: self.latest_observed_wave,
        }
    }
}

/// The greatest round of a set.
pub open spec fn greatest(rounds: Set<Round>) -> Option<Round> {
    if exists|r: Round| rounds.contains(r) {
        Some(choose|r: Round| is_greatest(rounds, r))
    } else {
        None
    }
}

/// A round is the greatest of a set.
pub open spec fn is_greatest(rounds: Set<Round>, r: Round) -> bool {
    rounds.contains(r) && forall|x: Round| #[trigger] rounds.contains(x) ==> x <= r
}

/// A number, or the greatest round where it is greater.
pub open spec fn clamped(n: int) -> Round {
    if n > Round::MAX {
        Round::MAX
    } else {
        n as Round
    }
}

/// The payload that a list of batches makes; the last worker named for a batch holds it.
pub open spec fn payload_of(digests: Seq<(Digest, WorkerId)>) -> Map<Digest, WorkerId>
    decreases digests.len(),
{
    if digests.len() == 0 {
        Map::empty()
    } else {
        payload_of(digests.drop_last()).insert(digests.last().0, digests.last().1)
    }
}

impl UnlockedView {
    /// An unlocked round with more parents.
    pub open spec fn merged(self, update: ProposalParentsView) -> UnlockedView {
        UnlockedView {
            parents: ordered(self.parents.to_set().union(update.parents.to_set())),
            solid_step_union: self.solid_step_union.union(update.solid_step_union),
            solid_wave_union: self.solid_wave_union.union(update.solid_wave_union),
            ..self
        }
    }
}

impl ProposerView {
    /// A round that ends a solid step.
    pub open spec fn is_critical(self, round: Round) -> bool {
        round > 1 && (round as int) % (self.solid_step_length as int) == 0
    }

    /// A round within a solid step.
    pub open spec fn is_intermediate(self, round: Round) -> bool {
        round > 1 && !self.is_critical(round)
    }

    pub open spec fn class(self, round: Round) -> RoundClass {
        if round == 1 {
            RoundClass::Bootstrap
        } else if self.is_critical(round) {
            RoundClass::Critical
        } else {
            RoundClass::Intermediate
        }
    }

    /// The next round after `round` that ends a solid step.
    pub open spec fn step_end(self, round: Round) -> int {
        ((round as int) / (self.solid_step_length as int) + 1) * self.solid_step_length
    }

    /// A round has been unlocked or proposed.
    pub open spec fn is_known(self, round: Round) -> bool {
        self.unlocked_rounds.contains_key(round) || self.proposed_rounds.contains(round)
    }

    /// A critical round, this one or a later one, has been unlocked or proposed.
    pub open spec fn has_started(self, round: int) -> bool {
        exists|r: Round| #[trigger] self.is_known(r) && self.is_critical(r) && r >= round
    }

    /// An intermediate round whose solid step has been ended.
    pub open spec fn is_obsolete(self, round: Round) -> bool {
        self.is_intermediate(round) && self.has_started(self.step_end(round))
    }

    /// The wave of a round, counted from zero.
    pub open spec fn wave(self, round: Round) -> Round {
        if self.solid_wave_length == 0 || round == 0 {
            0
        } else {
            ((round - 1) / self.solid_wave_length as int) as Round
        }
    }

    /// The first round of a wave.
    pub open spec fn wave_start(self, wave: Round) -> Round {
        clamped(clamped(wave * self.solid_wave_length) + 1)
    }

    /// The last round of a wave.
    pub open spec fn wave_end(self, wave: Round) -> Round {
        clamped(
            self.wave_start(wave) + if self.solid_wave_length == 0 {
                0
            } else {
                self.solid_wave_length - 1
            },
        )
    }

    /// The unlocked critical rounds of a wave.
    pub open spec fn unlocked_critical(self, wave: Round) -> Set<Round> {
        Set::new(
            |r: Round|
                self.unlocked_rounds.contains_key(r) && self.wave(r) == wave && self.is_critical(r),
        )
    }

    /// The critical rounds of a wave that have not been proposed.
    pub open spec fn unfinished_critical(self, wave: Round) -> Set<Round> {
        Set::new(
            |r: Round|
                self.wave_start(wave) <= r <= self.wave_end(wave) && self.is_critical(r)
                    && !self.proposed_rounds.contains(r),
        )
    }

    /// A critical round of a wave has been proposed.
    pub open spec fn has_proposed_critical(self, wave: Round) -> bool {
        exists|r: Round| #[trigger]
            self.proposed_rounds.contains(r) && self.wave(r) == wave && self.is_critical(r)
    }

    /// What becomes of a stale wave: once a critical round of it has been proposed, only the last
    /// critical round that is still to be proposed is worth keeping; before that, only the last
    /// critical round that is unlocked, if any is.
    pub open spec fn policy(self, wave: Round) -> StaleWavePolicy {
        if self.has_proposed_critical(wave) {
            match greatest(self.unfinished_critical(wave)) {
                Some(r) => StaleWavePolicy::KeepOnlyRound(r),
                None => StaleWavePolicy::DropWholeWave,
            }
        } else {
            match greatest(self.unlocked_critical(wave)) {
                Some(r) => StaleWavePolicy::KeepOnlyRound(r),
                None => StaleWavePolicy::KeepWholeWave,
            }
        }
    }

    /// A round is not stale: its wave is not behind, or the policy of its wave keeps it.
    pub open spec fn survives(self, round: Round) -> bool {
        self.wave(round) >= self.latest_observed_wave || match self.policy(self.wave(round)) {
            StaleWavePolicy::KeepWholeWave => true,
            StaleWavePolicy::KeepOnlyRound(r) => round == r,
            StaleWavePolicy::DropWholeWave => false,
        }
    }

    /// The proposer with other unlocked rounds.
    pub open spec fn with_unlocked(self, rounds: Map<Round, UnlockedView>) -> ProposerView {
        ProposerView { unlocked_rounds: rounds, ..self }
    }

    /// The proposer without stale rounds.
    pub open spec fn without_stale(self) -> ProposerView {
        self.with_unlocked(
            self.unlocked_rounds.restrict(Set::new(|r: Round| self.survives(r))),
        )
    }

    /// The proposer without the intermediate rounds of the steps that end by `critical_round`.
    pub open spec fn without_obsolete(self, critical_round: Round) -> ProposerView {
        self.with_unlocked(
            self.unlocked_rounds.restrict(
                Set::new(
                    |r: Round| !(self.is_intermediate(r) && self.step_end(r) <= critical_round),
                ),
            ),
        )
    }

    /// The proposer after it has seen a wave.
    pub open spec fn observed(self, wave: Round) -> ProposerView {
        if wave > self.latest_observed_wave {
            (ProposerView { latest_observed_wave: wave, ..self }).without_stale()
        } else {
            self
        }
    }

    /// The proposer after parents for a round that is neither stale nor obsolete: they join the ones
    /// that it has, or unlock the round.
    pub open spec fn joined(self, round: Round, update: ProposalParentsView, now: Time) -> ProposerView {
        if self.unlocked_rounds.contains_key(round) {
            self.with_unlocked(
                self.unlocked_rounds.insert(round, self.unlocked_rounds[round].merged(update)),
            )
        } else {
            ProposerView {
                unlocked_rounds: self.unlocked_rounds.insert(
                    round,
                    UnlockedView {
                        parents: update.parents,
                        solid_step_union: update.solid_step_union,
                        solid_wave_union: update.solid_wave_union,
                        ready_since: now,
                        unlock_order: self.next_unlock_order,
                    },
                ),
                next_unlock_order: (self.next_unlock_order + 1) as u64,
                ..self
            }
        }
    }

    /// The proposer after parents for a round.
    pub open spec fn unlocked(self, round: Round, update: ProposalParentsView, now: Time) -> ProposerView {
        if !self.survives(round) {
            self.with_unlocked(self.unlocked_rounds.remove(round))
        } else {
            let seen = self.observed(self.wave(round));
            if seen.proposed_rounds.contains(round) {
                seen
            } else if seen.is_obsolete(round) {
                seen.with_unlocked(seen.unlocked_rounds.remove(round))
            } else if seen.is_critical(round) {
                seen.without_obsolete(round).joined(round, update, now)
            } else {
                seen.joined(round, update, now)
            }
        }
    }

    /// An unlocked round with parents that is still to be proposed.
    pub open spec fn is_waiting(self, round: Round) -> bool {
        &&& self.unlocked_rounds.contains_key(round)
        &&& !self.proposed_rounds.contains(round)
        &&& self.unlocked_rounds[round].parents.len() > 0
    }

    /// A round has waited long enough for late parents. The first round does not wait.
    pub open spec fn is_ready(self, round: Round, state: UnlockedView, now: Time) -> bool {
        round == 1 || now - state.ready_since >= self.parent_grace_delay || (now
            < state.ready_since && self.parent_grace_delay == 0)
    }

    /// The rounds of a class that can be proposed.
    pub open spec fn candidates(self, class: RoundClass, now: Time) -> Set<Round> {
        Set::new(
            |r: Round|
                self.is_waiting(r) && self.class(r) == class && self.is_ready(
                    r,
                    self.unlocked_rounds[r],
                    now,
                ),
        )
    }

    /// A round of a set was unlocked before the others.
    pub open spec fn is_first(self, rounds: Set<Round>, r: Round) -> bool {
        rounds.contains(r) && forall|x: Round| #[trigger]
            rounds.contains(x) ==> self.unlocked_rounds[r].unlock_order
                <= self.unlocked_rounds[x].unlock_order
    }

    /// The round of a set that was unlocked first.
    pub open spec fn first(self, rounds: Set<Round>) -> Option<Round> {
        if exists|r: Round| rounds.contains(r) {
            Some(choose|r: Round| self.is_first(rounds, r))
        } else {
            None
        }
    }

    /// What to propose next. The first round goes at once and alone. Any other waits for a payload
    /// or for the end of the delay; then an intermediate round goes before a critical one, unless
    /// there is a payload.
    pub open spec fn decision(self, timer_expired: bool, enough_digests: bool, now: Time) -> Option<
        ProposalDecision,
    > {
        let has_payload = self.digests.len() > 0;
        let critical = self.first(self.candidates(RoundClass::Critical, now));
        let intermediate = self.first(self.candidates(RoundClass::Intermediate, now));
        match self.first(self.candidates(RoundClass::Bootstrap, now)) {
            Some(round) => Some(ProposalDecision { round, include_payload: false }),
            None => if !timer_expired && !enough_digests {
                None
            } else {
                match (critical, intermediate) {
                    (Some(c), Some(i)) => Some(
                        ProposalDecision {
                            round: if has_payload {
                                c
                            } else {
                                i
                            },
                            include_payload: has_payload,
                        },
                    ),
                    (Some(c), None) => Some(
                        ProposalDecision { round: c, include_payload: has_payload },
                    ),
                    (None, Some(i)) => Some(
                        ProposalDecision { round: i, include_payload: has_payload },
                    ),
                    (None, None) => None,
                }
            },
        }
    }

    /// When a waiting round becomes ready.
    pub open spec fn ready_at(self, round: Round, now: Time) -> int {
        if round == 1 {
            now as int
        } else {
            self.unlocked_rounds[round].ready_since + self.parent_grace_delay
        }
    }

    /// The header of a round, still to be signed. The header of the first round hands on its parents,
    /// the genesis; one that ends a solid step or wave hands on itself alone; any other hands on what
    /// it has from its parents.
    pub open spec fn header(
        self,
        round: Round,
        state: UnlockedView,
        include_payload: bool,
    ) -> HeaderView {
        let parents = state.parents.to_set();
        let payload = if include_payload {
            payload_of(self.digests)
        } else {
            Map::empty()
        };
        let bare = HeaderView::bare(self.name, round, payload, parents);
        let id = bare.digest();
        let ends_wave = round > 1 && (round as int) % (self.solid_wave_length as int) == 0;
        HeaderView {
            id,
            solid_step_vertices: if round == 1 {
                parents
            } else {
                state.solid_step_union
            },
            solid_step_vertices_merged: if round == 1 {
                parents
            } else if self.is_critical(round) {
                set![id]
            } else {
                state.solid_step_union
            },
            solid_wave_vertices: if round == 1 {
                parents
            } else {
                state.solid_wave_union
            },
            solid_wave_vertices_merged: if round == 1 {
                parents
            } else if ends_wave {
                set![id]
            } else {
                state.solid_wave_union
            },
            ..bare
        }
    }

    /// The proposer after its payload has gone into a header.
    pub open spec fn drained(self) -> ProposerView {
        ProposerView { digests: seq![], payload_size: 0, ..self }
    }

    /// The proposer after the header of a round has been made.
    pub open spec fn proposed(self, decision: ProposalDecision) -> ProposerView {
        let round = decision.round;
        let taken = if decision.include_payload {
            self.drained()
        } else {
            self
        };
        let after = ProposerView {
            unlocked_rounds: taken.unlocked_rounds.remove(round),
            proposed_rounds: taken.proposed_rounds.insert(round),
            latest_observed_wave: if self.wave(round) > self.latest_observed_wave {
                self.wave(round)
            } else {
                self.latest_observed_wave
            },
            ..taken
        };
        if decision.include_payload && self.is_critical(round) {
            after.without_obsolete(round)
        } else {
            after
        }
    }

    /// What the proposer does at a moment: it drops stale rounds, and may make a header.
    pub open spec fn polled(self, now: Time, payload_deadline: Time) -> (
        ProposerView,
        Option<HeaderView>,
    ) {
        let fresh = self.without_stale();
        match fresh.decision(
            now >= payload_deadline,
            self.payload_size >= self.header_size,
            now,
        ) {
            Some(decision) => (
                fresh.proposed(decision),
                Some(
                    fresh.header(
                        decision.round,
                        fresh.unlocked_rounds[decision.round],
                        decision.include_payload,
                    ),
                ),
            ),
            None => (fresh, None),
        }
    }

    /// The proposer after a batch has arrived.
    pub open spec fn with_batch(self, digest: Digest, worker: WorkerId) -> ProposerView {
        ProposerView {
            digests: self.digests.push((digest, worker)),
            payload_size: (self.payload_size + DIGEST_SIZE) as usize,
            ..self
        }
    }

    /// Solid steps have rounds; unlocked rounds are known by the order in which they were unlocked,
    /// and none of them has been proposed; and the payload is measured.
    pub open spec fn well_formed(self) -> bool {
        &&& self.solid_step_length > 0
        &&& self.unlocked_rounds.dom().finite()
        &&& forall|r: Round| #[trigger]
            self.unlocked_rounds.contains_key(r) ==> self.unlocked_rounds[r].unlock_order
                < self.next_unlock_order && !self.proposed_rounds.contains(r)
        &&& forall|r: Round, q: Round| #[trigger]
            self.unlocked_rounds.contains_key(r) && #[trigger] self.unlocked_rounds.contains_key(q)
                && r != q ==> self.unlocked_rounds[r].unlock_order
                != self.unlocked_rounds[q].unlock_order
        &&& self.payload_size == self.digests.len() * DIGEST_SIZE
    }

    /// The proposer when it starts: the first round is unlocked, on the genesis certificates.
    pub open spec fn started(
        name: PublicKey,
        committee: &Committee,
        header_size: usize,
        max_header_delay: u64,
        now: Time,
    ) -> ProposerView {
        ProposerView {
            name,
            header_size,
            max_header_delay,
            unlocked_rounds: map![
                1u64 => UnlockedView {
                    parents: ordered(committee.members()).map_values(
                        |a: PublicKey| CertificateView::genesis(a).digest(),
                    ),
                    solid_step_union: Set::empty(),
                    solid_wave_union: Set::empty(),
                    ready_since: now,
                    unlock_order: 0,
                },
            ],
            proposed_rounds: Set::empty(),
            next_unlock_order: 1,
            digests: seq![],
            payload_size: 0,
            solid_step_length: committee.solid_step_length,
            solid_wave_length: committee.solid_wave_length,
            parent_grace_delay: PARENT_GRACE_DELAY,
            latest_observed_wave: 0,
        }
    }
}

/// The greatest round of a set is the one that is greatest.
pub(crate) proof fn lemma_greatest(rounds: Set<Round>, r: Round)
    requires
        is_greatest(rounds, r),
    ensures
        greatest(rounds) == Some(r),
{
    let c = choose|c: Round| is_greatest(rounds, c);
    assert(rounds.contains(r));
    assert(is_greatest(rounds, c));
    assert(rounds.contains(c));
}

/// The round unlocked first is unique.
proof fn lemma_first(p: ProposerView, rounds: Set<Round>, r: Round)
    requires
        p.well_formed(),
        p.is_first(rounds, r),
        forall|x: Round| #[trigger] rounds.contains(x) ==> p.unlocked_rounds.contains_key(x),
    ensures
        p.first(rounds) == Some(r),
{
    let c = choose|c: Round| p.is_first(rounds, c);
    assert(rounds.contains(r));
    assert(p.is_first(rounds, c));
    assert(rounds.contains(c));
    assert(p.unlocked_rounds.contains_key(r));
    assert(p.unlocked_rounds.contains_key(c));
}

impl Proposer {
    /// A proposer that has the first round unlocked.
    pub fn new(
        name: PublicKey,
        committee: &Committee,
        header_size: usize,
        max_header_delay: u64,
        now: Time,
    ) -> (r: Self)
        requires
            committee.solid_step_length > 0,
        ensures
            r@ == ProposerView::started(name, committee, header_size, max_header_delay, now),
            r@.well_formed(),
    {
        let genesis: Vec<Certificate> = Certificate::genesis(committee);
        let ghost names = ordered(committee.members());
        let ghost digest = |a: PublicKey| CertificateView::genesis(a).digest();
        let mut parents: Vec<Digest> = Vec::new();
        let mut i: usize = 0;
        while i < genesis.len()
            invariant
                i <= genesis@.len(),
                genesis@.len() == names.len(),
                forall|j: int|
                    0 <= j < genesis@.len() ==> (#[trigger] genesis@[j])@
                        == CertificateView::genesis(names[j]),
                digest == (|a: PublicKey| CertificateView::genesis(a).digest()),
                parents@ == names.take(i as int).map_values(digest),
            decreases genesis@.len() - i,
        {
            parents.push(genesis[i].digest());
            i = i + 1;
            assert(parents@ =~= names.take(i as int).map_values(digest));
        }
        assert(names.take(i as int) =~= names);
        let mut unlocked_rounds: KeyMap<Round, UnlockedRound> = KeyMap::new();
        let first = UnlockedRound {
            parents,
            solid_step_union: KeySet::new(),
            solid_wave_union: KeySet::new(),
            ready_since: now,
            unlock_order: 0,
        };
        let _ = unlocked_rounds.insert(1, first);
        let r = Proposer {
            name,
            header_size,
            max_header_delay,
            unlocked_rounds,
            proposed_rounds: KeySet::new(),
            next_unlock_order: 1,
            digests: Vec::new(),
            payload_size: 0,
            solid_step_length: committee.solid_step_length(),
            solid_wave_length: committee.solid_wave_length(),
            parent_grace_delay: PARENT_GRACE_DELAY,
            latest_observed_wave: 0,
        };
        proof {
            let started = ProposerView::started(
                name,
                committee,
                header_size,
                max_header_delay,
                now,
            );
            assert(first@ =~= started.unlocked_rounds[1]);
            assert(r@.unlocked_rounds =~= started.unlocked_rounds);
            assert(r@ =~= started);
            assert(r@.unlocked_rounds.dom() =~= Set::empty().insert(1u64));
        }
        r
    }

    /// Until when to wait for a payload from `now` on.
    pub fn header_deadline(&self, now: Time) -> (r: Time)
        requires
            now + self@.max_header_delay * MILLISECOND <= Time::MAX,
        ensures
            r == now + self@.max_header_delay * MILLISECOND,
    {
        assert(self.max_header_delay * MILLISECOND <= Time::MAX) by (nonlinear_arith)
            requires
                self.max_header_delay <= u64::MAX,
                MILLISECOND == 1_000_000,
        ;
        now + self.max_header_delay as Time * MILLISECOND
    }

    /// Adds parents to a list; the result is sorted and repeats none. Gives the number of parents
    /// before and after.
    pub fn merge_parents(existing: &mut Vec<Digest>, parents: Vec<Digest>) -> (r: (usize, usize))
        ensures
            final(existing)@ == ordered(old(existing)@.to_set().union(parents@.to_set())),
            r.0 == old(existing)@.len(),
            r.1 == final(existing)@.len(),
    {
        let old_len: usize = existing.len();
        let mut merged: KeySet<Digest> = KeySet::from_vec(existing);
        let more: KeySet<Digest> = KeySet::from_vec(&parents);
        merged.extend(&more);
        *existing = merged.to_vec();
        (old_len, existing.len())
    }

    /// Adds parents to an unlocked round. Gives the number of new solid-step and solid-wave vertices.
    pub fn merge_unlocked_round(state: &mut UnlockedRound, update: ProposalParents) -> (r: (
        usize,
        usize,
    ))
        ensures
            final(state)@ == old(state)@.merged(update@),
            r.0 == final(state)@.solid_step_union.len() - old(state)@.solid_step_union.len(),
            r.1 == final(state)@.solid_wave_union.len() - old(state)@.solid_wave_union.len(),
    {
        let ghost before = state@;
        let step_len: usize = state.solid_step_union.len();
        let wave_len: usize = state.solid_wave_union.len();
        let _ = Self::merge_parents(&mut state.parents, update.parents);
        state.solid_step_union.extend(&update.solid_step_union);
        state.solid_wave_union.extend(&update.solid_wave_union);
        let step_now: usize = state.solid_step_union.len();
        let wave_now: usize = state.solid_wave_union.len();
        proof {
            vstd::set_lib::lemma_len_subset(before.solid_step_union, state@.solid_step_union);
            vstd::set_lib::lemma_len_subset(before.solid_wave_union, state@.solid_wave_union);
            assert(state@ =~= before.merged(update@));
        }
        (step_now - step_len, wave_now - wave_len)
    }

    pub fn round_class(&self, round: Round) -> (r: RoundClass)
        requires
            self@.well_formed(),
        ensures
            r == self@.class(round),
    {
        if round == 1 {
            RoundClass::Bootstrap
        } else if self.is_critical_round(round) {
            RoundClass::Critical
        } else {
            RoundClass::Intermediate
        }
    }

    pub fn is_critical_round(&self, round: Round) -> (r: bool)
        requires
            self@.well_formed(),
        ensures
            r == self@.is_critical(round),
    {
        round > 1 && round % self.solid_step_length == 0
    }

    pub fn is_intermediate_round(&self, round: Round) -> (r: bool)
        requires
            self@.well_formed(),
        ensures
            r == self@.is_intermediate(round),
    {
        round > 1 && !self.is_critical_round(round)
    }

    /// The end of the solid step of a round.
    fn step_end(&self, round: Round) -> (r: u128)
        requires
            self@.well_formed(),
        ensures
            r == self@.step_end(round),
    {
        let step: Round = self.solid_step_length;
        let steps: Round = round / step;
        assert(0 <= (steps + 1) * step <= u128::MAX) by (nonlinear_arith)
            requires
                0 <= steps <= u64::MAX,
                0 < step <= u64::MAX,
        ;
        (steps as u128 + 1) * step as u128
    }

    /// The critical round that ends the solid step of an intermediate round.
    pub fn next_critical_round(&self, round: Round) -> (r: Option<Round>)
        requires
            self@.well_formed(),
            self@.is_intermediate(round) ==> self@.step_end(round) <= Round::MAX,
        ensures
            r == if self@.is_intermediate(round) {
                Some(self@.step_end(round) as Round)
            } else {
                None
            },
    {
        if !self.is_intermediate_round(round) {
            return None;
        }
        Some(self.step_end(round) as Round)
    }

    /// Says whether a critical round, this one or a later one, has been unlocked or proposed.
    pub fn critical_round_started(&self, round: Round) -> (r: bool)
        requires
            self@.well_formed(),
        ensures
            r == self@.has_started(round as int),
    {
        self.has_started(round as u128)
    }

    /// Says whether a critical round, this one or a later one, has been unlocked or proposed.
    fn has_started(&self, round: u128) -> (r: bool)
        requires
            self@.well_formed(),
        ensures
            r == self@.has_started(round as int),
    {
        let unlocked: Vec<Round> = self.unlocked_rounds.key_list();
        let proposed: Vec<Round> = self.proposed_rounds.to_vec();
        let mut i: usize = 0;
        while i < unlocked.len()
            invariant
                i <= unlocked@.len(),
                self@.well_formed(),
                forall|r: Round| #[trigger]
                    unlocked@.contains(r) == self@.unlocked_rounds.contains_key(r),
                forall|j: int|
                    0 <= j < i ==> !(self@.is_critical(#[trigger] unlocked@[j]) && unlocked@[j]
                        >= round),
            decreases unlocked@.len() - i,
        {
            let candidate: Round = unlocked[i];
            if self.is_critical_round(candidate) && candidate as u128 >= round {
                assert(unlocked@.contains(candidate));
                assert(self@.is_known(candidate));
                return true;
            }
            i = i + 1;
        }
        let mut k: usize = 0;
        while k < proposed.len()
            invariant
                k <= proposed@.len(),
                self@.well_formed(),
                proposed@.to_set() == self@.proposed_rounds,
                forall|j: int|
                    0 <= j < k ==> !(self@.is_critical(#[trigger] proposed@[j]) && proposed@[j]
                        >= round),
            decreases proposed@.len() - k,
        {
            let candidate: Round = proposed[k];
            if self.is_critical_round(candidate) && candidate as u128 >= round {
                proof {
                    assert(proposed@.contains(candidate));
                    assert(proposed@.to_set().contains(candidate));
                    assert(self@.is_known(candidate));
                }
                return true;
            }
            k = k + 1;
        }
        proof {
            if self@.has_started(round as int) {
                let r = choose|r: Round| #[trigger]
                    self@.is_known(r) && self@.is_critical(r) && r >= round;
                if self@.unlocked_rounds.contains_key(r) {
                    assert(unlocked@.contains(r));
                    let j = choose|j: int| 0 <= j < unlocked@.len() && unlocked@[j] == r;
                    assert(self@.is_critical(unlocked@[j]));
                } else {
                    assert(proposed@.to_set().contains(r));
                    let j = choose|j: int| 0 <= j < proposed@.len() && proposed@[j] == r;
                    assert(self@.is_critical(proposed@[j]));
                }
            }
        }
        false
    }

    /// Says whether a round is an intermediate one whose solid step has been ended.
    pub fn is_obsolete_intermediate_round(&self, round: Round) -> (r: bool)
        requires
            self@.well_formed(),
        ensures
            r == self@.is_obsolete(round),
    {
        if !self.is_intermediate_round(round) {
            return false;
        }
        self.has_started(self.step_end(round))
    }

    /// Removes a list of rounds.
    fn remove_rounds(&mut self, rounds: &Vec<Round>)
        requires
            old(self)@.well_formed(),
        ensures
            final(self)@ == old(self)@.with_unlocked(
                old(self)@.unlocked_rounds.remove_keys(rounds@.to_set()),
            ),
            final(self)@.well_formed(),
    {
        let ghost before = self@;
        self.unlocked_rounds.remove_all(rounds);
        assert(self@.unlocked_rounds =~= before.unlocked_rounds.remove_keys(rounds@.to_set()));
        proof {
            lemma_fewer_unlocked(before, self@);
        }
    }

    /// Removes a round.
    fn remove_round(&mut self, round: Round)
        requires
            old(self)@.well_formed(),
        ensures
            final(self)@ == old(self)@.with_unlocked(old(self)@.unlocked_rounds.remove(round)),
            final(self)@.well_formed(),
    {
        let ghost before = self@;
        let _ = self.unlocked_rounds.remove(&round);
        proof {
            assert(self@.unlocked_rounds =~= before.unlocked_rounds.remove(round));
            assert(self@ =~= before.with_unlocked(before.unlocked_rounds.remove(round)));
            lemma_fewer_unlocked(before, self@);
        }
    }

    /// Drops the intermediate rounds of the steps that end by a critical round.
    pub fn drop_obsolete_intermediate_rounds(&mut self, critical_round: Round)
        requires
            old(self)@.well_formed(),
        ensures
            final(self)@ == old(self)@.without_obsolete(critical_round),
            final(self)@.well_formed(),
    {
        let ghost before = self@;
        let ghost ended = |r: Round|
            before.is_intermediate(r) && before.step_end(r) <= critical_round;
        let rounds: Vec<Round> = self.unlocked_rounds.key_list();
        let mut stale: Vec<Round> = Vec::new();
        let mut i: usize = 0;
        while i < rounds.len()
            invariant
                i <= rounds@.len(),
                self@ == before,
                before.well_formed(),
                ended == (|r: Round|
                    before.is_intermediate(r) && before.step_end(r) <= critical_round),
                forall|r: Round| #[trigger]
                    stale@.contains(r) == (rounds@.take(i as int).contains(r) && ended(r)),
            decreases rounds@.len() - i,
        {
            let round: Round = rounds[i];
            let ghost held = stale@;
            if self.is_intermediate_round(round) && self.step_end(round) <= critical_round as u128 {
                stale.push(round);
            }
            proof {
                let taken = rounds@.take(i as int);
                assert(rounds@.take(i + 1) =~= taken.push(round));
                assert forall|r: Round| #[trigger]
                    stale@.contains(r) == (rounds@.take(i + 1).contains(r) && ended(r)) by {
                    lemma_push_contains(taken, round, r);
                    lemma_push_contains(held, round, r);
                    assert(held.contains(r) == (taken.contains(r) && ended(r)));
                }
            }
            i = i + 1;
        }
        assert(rounds@.take(i as int) =~= rounds@);
        self.remove_rounds(&stale);
        proof {
            assert forall|r: Round| before.unlocked_rounds.contains_key(r) implies #[trigger]
                stale@.to_set().contains(r) == ended(r) by {
                assert(rounds@.contains(r));
                assert(stale@.contains(r) == ended(r));
            }
            assert(self@.unlocked_rounds =~= before.without_obsolete(
                critical_round,
            ).unlocked_rounds);
        }
    }

    /// Says whether a round has waited long enough for late parents.
    pub fn is_round_ready(&self, round: Round, state: &UnlockedRound, now: Time) -> (r: bool)
        ensures
            r == self@.is_ready(round, state@, now),
    {
        round == 1 || now.saturating_sub(state.ready_since) >= self.parent_grace_delay
    }

    /// When to look again: at the payload deadline, or earlier if a waiting round becomes ready before.
    pub fn next_recheck_deadline(&self, payload_deadline: Time, now: Time) -> (r: Time)
        ensures
            r <= payload_deadline,
            forall|q: Round| #[trigger] self@.is_waiting(q) ==> r <= self@.ready_at(q, now),
            r == payload_deadline || exists|q: Round| #[trigger]
                self@.is_waiting(q) && r == self@.ready_at(q, now),
    {
        let rounds: Vec<Round> = self.unlocked_rounds.key_list();
        let mut next_deadline: Time = payload_deadline;
        let mut i: usize = 0;
        while i < rounds.len()
            invariant
                i <= rounds@.len(),
                forall|q: Round| #[trigger]
                    rounds@.contains(q) == self@.unlocked_rounds.contains_key(q),
                next_deadline <= payload_deadline,
                forall|j: int|
                    0 <= j < i && self@.is_waiting(#[trigger] rounds@[j]) ==> next_deadline
                        <= self@.ready_at(rounds@[j], now),
                next_deadline == payload_deadline || exists|q: Round| #[trigger]
                    self@.is_waiting(q) && next_deadline == self@.ready_at(q, now),
            decreases rounds@.len() - i,
        {
            let round: Round = rounds[i];
            proof {
                assert(rounds@.contains(round));
                assert(self.unlocked_rounds@.contains_key(round));
            }
            match self.unlocked_rounds.get(&round) {
                Some(state) => {
                    if !self.proposed_rounds.contains(&round) && state.parents.len() > 0 {
                        assert(self@.is_waiting(round));
                        let ready: Time = if round == 1 {
                            now
                        } else {
                            state.ready_since.saturating_add(self.parent_grace_delay)
                        };
                        if ready < next_deadline {
                            next_deadline = ready;
                            assert(next_deadline == self@.ready_at(round, now));
                        }
                    }
                },
                None => {},
            }
            i = i + 1;
        }
        proof {
            assert forall|q: Round| #[trigger] self@.is_waiting(q) implies next_deadline
                <= self@.ready_at(q, now) by {
                assert(rounds@.contains(q));
                let j = choose|j: int| 0 <= j < rounds@.len() && rounds@[j] == q;
                assert(self@.is_waiting(rounds@[j]));
            }
        }
        next_deadline
    }

    pub fn wave_of(&self, round: Round) -> (r: Round)
        ensures
            r == self@.wave(round),
    {
        if self.solid_wave_length == 0 {
            return 0;
        }
        let r: Round = round.saturating_sub(1) / self.solid_wave_length;
        proof {
            if round == 0 {
                assert(0int / (self.solid_wave_length as int) == 0) by (nonlinear_arith)
                    requires
                        self.solid_wave_length > 0,
                ;
            }
        }
        r
    }

    /// The last critical round of a wave that is unlocked.
    pub fn highest_unlocked_critical_round_in_wave(&self, wave: Round) -> (r: Option<Round>)
        requires
            self@.well_formed(),
        ensures
            r == greatest(self@.unlocked_critical(wave)),
    {
        let ghost goal = self@.unlocked_critical(wave);
        let rounds: Vec<Round> = self.unlocked_rounds.key_list();
        let mut highest: Option<Round> = None;
        let mut i: usize = 0;
        while i < rounds.len()
            invariant
                i <= rounds@.len(),
                self@.well_formed(),
                goal == self@.unlocked_critical(wave),
                forall|q: Round| #[trigger]
                    rounds@.contains(q) == self@.unlocked_rounds.contains_key(q),
                match highest {
                    Some(h) => goal.contains(h) && forall|j: int|
                        0 <= j < i && goal.contains(#[trigger] rounds@[j]) ==> rounds@[j] <= h,
                    None => forall|j: int| 0 <= j < i ==> !goal.contains(#[trigger] rounds@[j]),
                },
            decreases rounds@.len() - i,
        {
            let round: Round = rounds[i];
            assert(rounds@.contains(round));
            if self.wave_of(round) == wave && self.is_critical_round(round) {
                assert(goal.contains(round));
                match highest {
                    Some(h) => {
                        if h < round {
                            highest = Some(round);
                        }
                    },
                    None => {
                        highest = Some(round);
                    },
                }
            }
            i = i + 1;
        }
        proof {
            assert forall|q: Round| #[trigger] goal.contains(q) implies rounds@.contains(q) by {}
            match highest {
                Some(h) => {
                    assert forall|q: Round| #[trigger] goal.contains(q) implies q <= h by {
                        assert(rounds@.contains(q));
                        let j = choose|j: int| 0 <= j < rounds@.len() && rounds@[j] == q;
                        assert(goal.contains(rounds@[j]));
                    }
                    lemma_greatest(goal, h);
                },
                None => {
                    assert forall|q: Round| !goal.contains(q) by {
                        if goal.contains(q) {
                            assert(rounds@.contains(q));
                            let j = choose|j: int| 0 <= j < rounds@.len() && rounds@[j] == q;
                            assert(goal.contains(rounds@[j]));
                        }
                    }
                },
            }
        }
        highest
    }

    /// The last critical round of a wave that has not been proposed.
    pub fn highest_unfinished_critical_round_in_wave(&self, wave: Round) -> (r: Option<Round>)
        requires
            self@.well_formed(),
        ensures
            r == greatest(self@.unfinished_critical(wave)),
    {
        let ghost goal = self@.unfinished_critical(wave);
        let length: Round = self.solid_wave_length;
        assert(0 <= wave * length <= u128::MAX) by (nonlinear_arith)
            requires
                0 <= wave <= u64::MAX,
                0 <= length <= u64::MAX,
        ;
        let product: u128 = wave as u128 * length as u128;
        let before_start: Round = if product > Round::MAX as u128 {
            Round::MAX
        } else {
            product as Round
        };
        let start: Round = before_start.saturating_add(1);
        let end: Round = start.saturating_add(length.saturating_sub(1));
        proof {
            assert(start == self@.wave_start(wave));
            assert(end == self@.wave_end(wave));
        }
        let mut round: Round = end;
        loop
            invariant
                self@.well_formed(),
                goal == self@.unfinished_critical(wave),
                start == self@.wave_start(wave),
                end == self@.wave_end(wave),
                start <= round <= end,
                forall|q: Round| #[trigger] goal.contains(q) ==> q <= round,
            decreases round,
        {
            if self.is_critical_round(round) && !self.proposed_rounds.contains(&round) {
                proof {
                    assert(goal.contains(round));
                    lemma_greatest(goal, round);
                }
                return Some(round);
            }
            assert(!goal.contains(round));
            if round == start {
                proof {
                    assert forall|q: Round| !goal.contains(q) by {
                        if goal.contains(q) {
                            assert(q <= round);
                        }
                    }
                }
                return None;
            }
            round = round - 1;
        }
    }

    /// Says whether a critical round of a wave has been proposed.
    pub fn wave_has_proposed_critical_round(&self, wave: Round) -> (r: bool)
        requires
            self@.well_formed(),
        ensures
            r == self@.has_proposed_critical(wave),
    {
        let proposed: Vec<Round> = self.proposed_rounds.to_vec();
        let mut i: usize = 0;
        while i < proposed.len()
            invariant
                i <= proposed@.len(),
                self@.well_formed(),
                proposed@.to_set() == self@.proposed_rounds,
                forall|j: int|
                    0 <= j < i ==> !(self@.wave(#[trigger] proposed@[j]) == wave
                        && self@.is_critical(proposed@[j])),
            decreases proposed@.len() - i,
        {
            let round: Round = proposed[i];
            if self.wave_of(round) == wave && self.is_critical_round(round) {
                proof {
                    assert(proposed@.contains(round));
                    assert(proposed@.to_set().contains(round));
                    assert(self@.proposed_rounds.contains(round));
                }
                return true;
            }
            i = i + 1;
        }
        proof {
            if self@.has_proposed_critical(wave) {
                let r = choose|r: Round| #[trigger]
                    self@.proposed_rounds.contains(r) && self@.wave(r) == wave
                        && self@.is_critical(r);
                assert(proposed@.to_set().contains(r));
                let j = choose|j: int| 0 <= j < proposed@.len() && proposed@[j] == r;
                assert(self@.wave(proposed@[j]) == wave);
            }
        }
        false
    }

    /// What becomes of a wave once a later one has been seen.
    pub fn stale_wave_policy(&self, wave: Round) -> (r: StaleWavePolicy)
        requires
            self@.well_formed(),
        ensures
            r == self@.policy(wave),
    {
        if self.wave_has_proposed_critical_round(wave) {
            match self.highest_unfinished_critical_round_in_wave(wave) {
                Some(round) => StaleWavePolicy::KeepOnlyRound(round),
                None => StaleWavePolicy::DropWholeWave,
            }
        } else {
            match self.highest_unlocked_critical_round_in_wave(wave) {
                Some(round) => StaleWavePolicy::KeepOnlyRound(round),
                None => StaleWavePolicy::KeepWholeWave,
            }
        }
    }

    /// Says whether a round is worth keeping although a later wave may have been seen.
    fn survives(&self, round: Round) -> (r: bool)
        requires
            self@.well_formed(),
        ensures
            r == self@.survives(round),
    {
        let wave: Round = self.wave_of(round);
        if wave >= self.latest_observed_wave {
            return true;
        }
        match self.stale_wave_policy(wave) {
            StaleWavePolicy::KeepWholeWave => true,
            StaleWavePolicy::KeepOnlyRound(retained_round) => round == retained_round,
            StaleWavePolicy::DropWholeWave => false,
        }
    }

    /// Drops the rounds that a later wave has made stale.
    pub fn drop_stale_wave_rounds(&mut self)
        requires
            old(self)@.well_formed(),
        ensures
            final(self)@ == old(self)@.without_stale(),
            final(self)@.well_formed(),
    {
        let ghost before = self@;
        let rounds: Vec<Round> = self.unlocked_rounds.key_list();
        let mut stale: Vec<Round> = Vec::new();
        let mut i: usize = 0;
        while i < rounds.len()
            invariant
                i <= rounds@.len(),
                self@ == before,
                before.well_formed(),
                forall|r: Round| #[trigger]
                    stale@.contains(r) == (rounds@.take(i as int).contains(r) && !before.survives(
                        r,
                    )),
            decreases rounds@.len() - i,
        {
            let round: Round = rounds[i];
            let ghost held = stale@;
            if !self.survives(round) {
                stale.push(round);
            }
            proof {
                let taken = rounds@.take(i as int);
                assert(rounds@.take(i + 1) =~= taken.push(round));
                assert forall|r: Round| #[trigger]
                    stale@.contains(r) == (rounds@.take(i + 1).contains(r) && !before.survives(
                        r,
                    )) by {
                    lemma_push_contains(taken, round, r);
                    lemma_push_contains(held, round, r);
                    assert(held.contains(r) == (taken.contains(r) && !before.survives(r)));
                }
            }
            i = i + 1;
        }
        assert(rounds@.take(i as int) =~= rounds@);
        self.remove_rounds(&stale);
        proof {
            assert forall|r: Round| before.unlocked_rounds.contains_key(r) implies #[trigger]
                stale@.to_set().contains(r) == !before.survives(r) by {
                assert(rounds@.contains(r));
                assert(stale@.contains(r) == !before.survives(r));
            }
            assert(self@.unlocked_rounds =~= before.without_stale().unlocked_rounds);
        }
    }

    /// Lets parents join a round, or unlocks the round with them.
    fn join(&mut self, round: Round, update: ProposalParents, now: Time)
        requires
            old(self)@.well_formed(),
            !old(self)@.proposed_rounds.contains(round),
            old(self)@.unlocked_rounds.contains_key(round) || old(self)@.next_unlock_order
                < u64::MAX,
        ensures
            final(self)@ == old(self)@.joined(round, update@, now),
            final(self)@.well_formed(),
    {
        let ghost before = self@;
        match self.unlocked_rounds.remove(&round) {
            Some(state) => {
                let mut state: UnlockedRound = state;
                let _ = Self::merge_unlocked_round(&mut state, update);
                let _ = self.unlocked_rounds.insert(round, state);
                assert(self@.unlocked_rounds =~= before.joined(
                    round,
                    update@,
                    now,
                ).unlocked_rounds);
            },
            None => {
                let unlock_order: u64 = self.next_unlock_order;
                self.next_unlock_order = unlock_order + 1;
                let state = UnlockedRound {
                    parents: update.parents,
                    solid_step_union: update.solid_step_union,
                    solid_wave_union: update.solid_wave_union,
                    ready_since: now,
                    unlock_order,
                };
                let _ = self.unlocked_rounds.insert(round, state);
                assert(state@ =~= before.joined(round, update@, now).unlocked_rounds[round]);
                assert(self@.unlocked_rounds =~= before.joined(
                    round,
                    update@,
                    now,
                ).unlocked_rounds);
            },
        }
        assert(self@ =~= before.joined(round, update@, now));
        proof {
            lemma_joined_well_formed(before, round, update@, now);
        }
    }

    /// Takes in parents for a header of `round`.
    pub fn unlock_round(&mut self, round: Round, parent_update: ProposalParents, now: Time)
        requires
            old(self)@.well_formed(),
            old(self)@.next_unlock_order < u64::MAX,
        ensures
            final(self)@ == old(self)@.unlocked(round, parent_update@, now),
            final(self)@.well_formed(),
    {
        if !self.survives(round) {
            self.remove_round(round);
            return;
        }
        let round_wave: Round = self.wave_of(round);
        if round_wave > self.latest_observed_wave {
            self.latest_observed_wave = round_wave;
            self.drop_stale_wave_rounds();
        }
        if self.proposed_rounds.contains(&round) {
            return;
        }
        if self.is_obsolete_intermediate_round(round) {
            self.remove_round(round);
            return;
        }
        if self.is_critical_round(round) {
            self.drop_obsolete_intermediate_rounds(round);
        }
        self.join(round, parent_update, now);
    }

    /// The round of a class that can be proposed and was unlocked first.
    fn first_candidate(&self, class: RoundClass, now: Time) -> (r: Option<Round>)
        requires
            self@.well_formed(),
        ensures
            r == self@.first(self@.candidates(class, now)),
            r matches Some(q) ==> self@.candidates(class, now).contains(q),
    {
        let ghost goal = self@.candidates(class, now);
        let rounds: Vec<Round> = self.unlocked_rounds.key_list();
        let mut first: Option<(Round, u64)> = None;
        let mut i: usize = 0;
        while i < rounds.len()
            invariant
                i <= rounds@.len(),
                self@.well_formed(),
                goal == self@.candidates(class, now),
                forall|q: Round| #[trigger]
                    rounds@.contains(q) == self@.unlocked_rounds.contains_key(q),
                match first {
                    Some(f) => goal.contains(f.0) && self@.unlocked_rounds[f.0].unlock_order == f.1
                        && forall|j: int|
                        0 <= j < i && goal.contains(#[trigger] rounds@[j]) ==> f.1
                            <= self@.unlocked_rounds[rounds@[j]].unlock_order,
                    None => forall|j: int| 0 <= j < i ==> !goal.contains(#[trigger] rounds@[j]),
                },
            decreases rounds@.len() - i,
        {
            let round: Round = rounds[i];
            proof {
                assert(rounds@.contains(round));
                assert(self.unlocked_rounds@.contains_key(round));
            }
            match self.unlocked_rounds.get(&round) {
                Some(state) => {
                    assert(self@.unlocked_rounds[round] == state@);
                    if !self.proposed_rounds.contains(&round) && state.parents.len() > 0
                        && self.round_class(round) == class && self.is_round_ready(
                        round,
                        state,
                        now,
                    ) {
                        assert(goal.contains(round));
                        match first {
                            Some(f) => {
                                if state.unlock_order < f.1 {
                                    first = Some((round, state.unlock_order));
                                }
                            },
                            None => {
                                first = Some((round, state.unlock_order));
                            },
                        }
                    }
                },
                None => {},
            }
            i = i + 1;
        }
        proof {
            match first {
                Some(f) => {
                    assert forall|q: Round| #[trigger] goal.contains(q) implies
                        self@.unlocked_rounds[f.0].unlock_order
                        <= self@.unlocked_rounds[q].unlock_order by {
                        assert(rounds@.contains(q));
                        let j = choose|j: int| 0 <= j < rounds@.len() && rounds@[j] == q;
                        assert(goal.contains(rounds@[j]));
                    }
                    lemma_first(self@, goal, f.0);
                },
                None => {
                    assert forall|q: Round| !goal.contains(q) by {
                        if goal.contains(q) {
                            assert(rounds@.contains(q));
                            let j = choose|j: int| 0 <= j < rounds@.len() && rounds@[j] == q;
                            assert(goal.contains(rounds@[j]));
                        }
                    }
                },
            }
        }
        match first {
            Some(f) => Some(f.0),
            None => None,
        }
    }

    /// What to propose next.
    pub fn next_proposal_round(&self, timer_expired: bool, enough_digests: bool, now: Time) -> (r:
        Option<ProposalDecision>)
        requires
            self@.well_formed(),
        ensures
            r == self@.decision(timer_expired, enough_digests, now),
            r matches Some(decision) ==> self@.is_waiting(decision.round),
    {
        match self.first_candidate(RoundClass::Bootstrap, now) {
            Some(round) => {
                return Some(ProposalDecision { round, include_payload: false });
            },
            None => {},
        }
        if !timer_expired && !enough_digests {
            return None;
        }
        let has_payload: bool = self.digests.len() > 0;
        let critical: Option<Round> = self.first_candidate(RoundClass::Critical, now);
        let intermediate: Option<Round> = self.first_candidate(RoundClass::Intermediate, now);
        let round: Round = match (critical, intermediate) {
            (Some(c), Some(i)) => {
                if has_payload {
                    c
                } else {
                    i
                }
            },
            (Some(c), None) => c,
            (None, Some(i)) => i,
            (None, None) => {
                return None;
            },
        };
        Some(ProposalDecision { round, include_payload: has_payload })
    }

    /// Takes the batches that wait, as the payload of a header.
    pub fn take_payload_for_header(&mut self) -> (r: KeyMap<Digest, WorkerId>)
        ensures
            r@ == payload_of(old(self)@.digests),
            final(self)@ == old(self)@.drained(),
            old(self)@.well_formed() ==> final(self)@.well_formed(),
    {
        let mut digests: Vec<(Digest, WorkerId)> = Vec::new();
        std::mem::swap(&mut digests, &mut self.digests);
        self.payload_size = 0;
        assert(self@ =~= old(self)@.drained());
        let mut payload: KeyMap<Digest, WorkerId> = KeyMap::new();
        let mut i: usize = 0;
        while i < digests.len()
            invariant
                i <= digests@.len(),
                payload@ == payload_of(digests@.take(i as int)),
            decreases digests@.len() - i,
        {
            let _ = payload.insert(digests[i].0, digests[i].1);
            i = i + 1;
            assert(digests@.take(i as int).drop_last() =~= digests@.take(i - 1));
        }
        assert(digests@.take(i as int) =~= digests@);
        payload
    }

    /// Makes the header of a round, still to be signed.
    pub fn make_header(
        &mut self,
        round: Round,
        unlocked_round: UnlockedRound,
        include_payload: bool,
    ) -> (r: Header)
        requires
            old(self)@.well_formed(),
            round > 1 ==> old(self)@.solid_wave_length > 0,
        ensures
            r@ == old(self)@.header(round, unlocked_round@, include_payload),
            final(self)@ == if include_payload {
                old(self)@.drained()
            } else {
                old(self)@
            },
            final(self)@.well_formed(),
    {
        let ghost before = self@;
        let ends_step: bool = self.is_critical_round(round);
        let ends_wave: bool = round > 1 && round % self.solid_wave_length == 0;
        let payload: KeyMap<Digest, WorkerId> = if include_payload {
            self.take_payload_for_header()
        } else {
            KeyMap::new()
        };
        let UnlockedRound { parents, solid_step_union, solid_wave_union, .. } = unlocked_round;
        let parent_set: KeySet<Digest> = KeySet::from_vec(&parents);
        let mut header: Header = Header::new(self.name, round, payload, parent_set.clone());
        let ghost bare = header@;
        let mut self_only: KeySet<Digest> = KeySet::new();
        let _ = self_only.insert(header.id);
        if round == 1 {
            header.store_solid_step_vertex(parent_set.clone());
            header.store_solid_step_merged_vertices(parent_set.clone());
            header.store_solid_wave_vertex(parent_set.clone());
            header.store_solid_wave_merged_vertices(parent_set);
        } else if ends_step {
            header.store_solid_step_vertex(solid_step_union);
            header.store_solid_step_merged_vertices(self_only.clone());
        } else {
            header.store_solid_step_vertex(solid_step_union.clone());
            header.store_solid_step_merged_vertices(solid_step_union);
        }
        if ends_wave {
            header.store_solid_wave_vertex(solid_wave_union);
            header.store_solid_wave_merged_vertices(self_only);
        } else if round != 1 {
            header.store_solid_wave_vertex(solid_wave_union.clone());
            header.store_solid_wave_merged_vertices(solid_wave_union);
        }
        assert(header@ =~= before.header(round, unlocked_round@, include_payload));
        header
    }

    /// Drops stale rounds, and makes the next header if it is time for one.
    pub fn poll(&mut self, now: Time, payload_deadline: Time) -> (r: Option<Header>)
        requires
            old(self)@.well_formed(),
            old(self)@.solid_wave_length > 0 || forall|q: Round| #[trigger]
                old(self)@.unlocked_rounds.contains_key(q) ==> q <= 1,
        ensures
            ({
                let (after, header) = old(self)@.polled(now, payload_deadline);
                &&& final(self)@ == after
                &&& match r {
                    Some(h) => header == Some(h@),
                    None => header is None,
                }
            }),
            final(self)@.well_formed(),
    {
        let enough_digests: bool = self.payload_size >= self.header_size;
        let timer_expired: bool = now >= payload_deadline;
        self.drop_stale_wave_rounds();
        let ghost fresh = self@;
        let decision: ProposalDecision = match self.next_proposal_round(
            timer_expired,
            enough_digests,
            now,
        ) {
            Some(decision) => decision,
            None => {
                return None;
            },
        };
        let round: Round = decision.round;
        assert(fresh.unlocked_rounds.contains_key(round));
        let wave: Round = self.wave_of(round);
        if wave > self.latest_observed_wave {
            self.latest_observed_wave = wave;
        }
        let ghost held = self@;
        match self.unlocked_rounds.remove(&round) {
            Some(state) => {
                proof {
                    assert(state@ == fresh.unlocked_rounds[round]);
                    assert(self@.unlocked_rounds =~= held.unlocked_rounds.remove(round));
                    lemma_fewer_unlocked(held, self@);
                }
                let header: Header = self.make_header(round, state, decision.include_payload);
                let _ = self.proposed_rounds.insert(round);
                if decision.include_payload && self.is_critical_round(round) {
                    self.drop_obsolete_intermediate_rounds(round);
                }
                assert(self@ =~= fresh.proposed(decision));
                Some(header)
            },
            None => None,
        }
    }

    /// Says whether another round can be unlocked: the unlock order has not run out.
    pub fn can_unlock(&self) -> (r: bool)
        ensures
            r == (self@.next_unlock_order < u64::MAX),
    {
        self.next_unlock_order < u64::MAX
    }

    /// Says whether another batch can be taken in: the size of the payload has not run out.
    pub fn can_take_digest(&self) -> (r: bool)
        ensures
            r == (self@.payload_size + DIGEST_SIZE <= usize::MAX),
    {
        self.payload_size <= usize::MAX - DIGEST_SIZE
    }

    /// Takes in parents from certificates of `round`, for a header of the next one.
    pub fn on_parents(&mut self, round: Round, parent_update: ProposalParents, now: Time)
        requires
            old(self)@.well_formed(),
            old(self)@.next_unlock_order < u64::MAX,
            round < Round::MAX,
        ensures
            final(self)@ == old(self)@.unlocked((round + 1) as Round, parent_update@, now),
            final(self)@.well_formed(),
    {
        self.unlock_round(round + 1, parent_update, now);
    }

    /// Takes in a batch.
    pub fn on_digest(&mut self, digest: Digest, worker: WorkerId)
        requires
            old(self)@.well_formed(),
            old(self)@.payload_size + DIGEST_SIZE <= usize::MAX,
        ensures
            final(self)@ == old(self)@.with_batch(digest, worker),
            final(self)@.well_formed(),
    {
        self.payload_size = self.payload_size + digest.size();
        self.digests.push((digest, worker));
        assert(self@ =~= old(self)@.with_batch(digest, worker));
    }
}

/// A proposer with fewer unlocked rounds is well formed.
proof fn lemma_fewer_unlocked(p: ProposerView, q: ProposerView)
    requires
        p.well_formed(),
        q == p.with_unlocked(q.unlocked_rounds),
        q.unlocked_rounds.dom().subset_of(p.unlocked_rounds.dom()),
        forall|r: Round| #[trigger]
            q.unlocked_rounds.contains_key(r) ==> q.unlocked_rounds[r] == p.unlocked_rounds[r],
    ensures
        q.well_formed(),
{
    vstd::set_lib::lemma_set_subset_finite(p.unlocked_rounds.dom(), q.unlocked_rounds.dom());
    assert forall|r: Round| #[trigger] q.unlocked_rounds.contains_key(r) implies
        p.unlocked_rounds.contains_key(r) by {
        assert(q.unlocked_rounds.dom().contains(r));
    }
}

/// Parents that join a round leave the proposer well formed.
proof fn lemma_joined_well_formed(
    p: ProposerView,
    round: Round,
    update: ProposalParentsView,
    now: Time,
)
    requires
        p.well_formed(),
        !p.proposed_rounds.contains(round),
        p.unlocked_rounds.contains_key(round) || p.next_unlock_order < u64::MAX,
    ensures
        p.joined(round, update, now).well_formed(),
{
    let q = p.joined(round, update, now);
    assert(q.unlocked_rounds.dom() =~= p.unlocked_rounds.dom().insert(round));
    assert forall|r: Round| #[trigger] q.unlocked_rounds.contains_key(r) && r != round implies
        p.unlocked_rounds.contains_key(r) && q.unlocked_rounds[r] == p.unlocked_rounds[r] by {}
}

} // verus!
