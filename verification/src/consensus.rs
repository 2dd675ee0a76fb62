//! The commit rules: which certificates of the DAG are committed, and in which order.
use vstd::prelude::*;

use crate::collections::{KeyMap, KeySet};
use crate::committee::{lemma_weight_fits, Committee, Round, Weight};
use crate::crypto::{Digest, PublicKey};
use crate::dag::{
    certificate_views, lemma_push_contains, lemma_status_well_formed, position, CommitStatus,
    DagEntry, DagPosition, EntryView, State, StateView,
};
use crate::keys::ordered;
use crate::messages::{Certificate, CertificateView};
use crate::ordering::{merge_new, sort_by_round, sort_references};
use crate::traversal::{digests, linked, reference_views, walk_ancestors};

verus! {

/// The commit rules of one committee.
pub struct Consensus {
    committee: Committee,
    /// The authorities in the order in which they lead the rounds.
    authorities: Vec<PublicKey>,
    /// The node number of each authority.
    author_to_node: KeyMap<PublicKey, usize>,
    /// How many rounds behind the last commit a certificate is kept.
    gc_depth: Round,
}

/// Where a committed certificate is sent.
#[derive(Clone, Copy, Debug, PartialEq, Eq, Structural)]
pub enum Destination {
    /// Back to the primary, for cleanup.
    Primary,
    /// Out to the application.
    Application,
}

/// What a list of deliveries holds.
pub open spec fn delivery_views(list: Seq<(Destination, Certificate)>) -> Seq<
    (Destination, CertificateView),
> {
    list.map_values(|x: (Destination, Certificate)| (x.0, x.1@))
}

/// What is sent for a list of commits: in the order of the list each certificate goes to the primary
/// and then to the application.
pub open spec fn emitted(commits: Seq<CertificateView>) -> Seq<(Destination, CertificateView)> {
    Seq::new(
        2 * commits.len(),
        |i: int|
            (
                if i % 2 == 0 {
                    Destination::Primary
                } else {
                    Destination::Application
                },
                commits[i / 2],
            ),
    )
}

/// The node number that stands for an unknown authority.
pub const UNKNOWN_NODE: usize = 999;

/// A certificate endorses another as one of its solid-step vertices, by header id or by digest.
pub open spec fn supports(c: CertificateView, candidate: CertificateView) -> bool {
    ||| c.header.solid_step_vertices.contains(candidate.header.id)
    ||| c.header.solid_step_vertices.contains(candidate.digest())
}

impl StateView {
    /// The state with the status of each certificate of a round set anew.
    pub open spec fn decided(
        self,
        round: Round,
        status: spec_fn(CertificateView) -> CommitStatus,
    ) -> StateView {
        StateView {
            dag: Map::new(
                |p: DagPosition| self.dag.contains_key(p),
                |p: DagPosition|
                    if p.round == round {
                        EntryView { status: status(self.dag[p].certificate), ..self.dag[p] }
                    } else {
                        self.dag[p]
                    },
            ),
            ..self
        }
    }

    /// The certificate of an authority in a round.
    pub open spec fn certificate_at(self, round: Round, author: PublicKey) -> CertificateView {
        self.dag[position(round, author)].certificate
    }

    /// The certificates of a round that are to be committed, in the order of their authors.
    pub open spec fn one_valent(self, round: Round) -> Seq<CertificateView> {
        ordered(self.authors(round)).filter(
            |a: PublicKey| self.dag[position(round, a)].status == CommitStatus::OneValent,
        ).map_values(|a: PublicKey| self.certificate_at(round, a))
    }
}

impl Consensus {
    pub closed spec fn committee(&self) -> Committee {
        self.committee
    }

    pub closed spec fn gc_depth(&self) -> Round {
        self.gc_depth
    }

    /// The members, in the order in which they lead.
    pub open spec fn authorities(&self) -> Seq<PublicKey> {
        ordered(self.committee().members())
    }

    /// The members lead in increasing order, and each is known by its place in that order.
    #[verifier::type_invariant]
    spec fn is_numbered(self) -> bool {
        &&& self.authorities@ == ordered(self.committee.members())
        &&& self.author_to_node@.dom() == self.committee.members()
        &&& self.authorities@.to_set() == self.committee.members()
        &&& forall|i: int|
            0 <= i < self.authorities@.len() ==> self.author_to_node@.contains_key(
                #[trigger] self.authorities@[i],
            ) && self.author_to_node@[self.authorities@[i]] == i
    }

    /// The number of a node in the order of the committee.
    pub open spec fn node_id(&self, author: PublicKey) -> usize {
        match self.committee().node_of(author) {
            Some(node) => node,
            None => UNKNOWN_NODE,
        }
    }

    /// The stake of the authorities with a certificate in a round.
    pub open spec fn round_weight(&self, s: StateView, round: Round) -> nat {
        self.committee().weight(ordered(s.authors(round)))
    }

    /// The stake of the authorities whose certificate of a round supports a candidate.
    pub open spec fn support_weight(
        &self,
        s: StateView,
        round: Round,
        candidate: CertificateView,
    ) -> nat {
        self.committee().weight_where(
            ordered(s.authors(round)),
            |a: PublicKey| supports(s.certificate_at(round, a), candidate),
        )
    }

    /// The stake of the authorities whose certificate of a round supports a candidate and is
    /// linked to a leader.
    pub open spec fn connected_weight(
        &self,
        s: StateView,
        round: Round,
        candidate: CertificateView,
        leader: CertificateView,
    ) -> nat {
        self.committee().weight_where(
            ordered(s.authors(round)),
            |a: PublicKey|
                supports(s.certificate_at(round, a), candidate) && s.links(
                    s.certificate_at(round, a),
                    leader,
                ),
        )
    }

    /// What the certificates of `round` decide of a candidate of the round before: a quorum of
    /// support takes it in, a quorum without support rejects it.
    pub open spec fn fast_status(
        &self,
        s: StateView,
        round: Round,
        candidate: CertificateView,
    ) -> CommitStatus {
        let support = self.support_weight(s, round, candidate);
        if support >= self.committee().quorum_threshold {
            CommitStatus::OneValent
        } else if self.round_weight(s, round) - support >= self.committee().quorum_threshold {
            CommitStatus::ZeroValent
        } else {
            CommitStatus::Bivalent
        }
    }

    /// What the slow path decides of a candidate of `round`: what has been decided stands, and
    /// otherwise it takes enough stake of support that is linked to the leader.
    pub open spec fn slow_status(
        &self,
        s: StateView,
        round: Round,
        leader: CertificateView,
        candidate: CertificateView,
    ) -> CommitStatus {
        let status = s.dag[candidate.position()].status;
        if status == CommitStatus::OneValent || status == CommitStatus::ZeroValent {
            status
        } else if self.connected_weight(s, (round + 1) as Round, candidate, leader)
            >= self.committee().validity_threshold {
            CommitStatus::OneValent
        } else {
            CommitStatus::ZeroValent
        }
    }

    /// A certificate is recent enough to be committed.
    pub open spec fn is_recent(&self, s: StateView, c: CertificateView) -> bool {
        c.round() + self.gc_depth() >= s.last_committed_certificate_round
    }

    /// What is committed with a certificate: its ancestors that are neither rejected nor committed
    /// nor too old, by round.
    pub open spec fn ordered_dag(&self, s: StateView, leader: CertificateView) -> Seq<
        CertificateView,
    > {
        sort_by_round(s.ancestors(true, leader).filter(|c: CertificateView| self.is_recent(s, c)))
    }

    /// What is committed with each of a list of certificates, without repetition.
    pub open spec fn gathered(&self, s: StateView, leaders: Seq<CertificateView>) -> Seq<
        CertificateView,
    >
        decreases leaders.len(),
    {
        if leaders.len() == 0 {
            seq![]
        } else {
            merge_new(
                self.gathered(s, leaders.drop_last()),
                self.ordered_dag(s, leaders.last()),
            )
        }
    }

    /// What is committed with a list of certificates, by round.
    pub open spec fn commits(&self, s: StateView, leaders: Seq<CertificateView>) -> Seq<
        CertificateView,
    > {
        sort_by_round(self.gathered(s, leaders))
    }

    /// The state after the certificates that a round has decided for are committed, and what is
    /// committed.
    pub open spec fn commit_round(&self, s: StateView, round: Round) -> (
        StateView,
        Seq<CertificateView>,
    ) {
        let commits = self.commits(s, s.one_valent(round));
        (s.recorded_all(commits).cleaned(self.gc_depth()), commits)
    }

    /// The fast path can look at `round`: it is beyond what is committed, a quorum has certificates
    /// in it, and the round before it is there.
    pub open spec fn fast_path_applies(&self, s: StateView, round: Round) -> bool {
        &&& round > 0
        &&& round > s.last_committed_certificate_round
        &&& s.authors(round).len() > 0
        &&& round <= 1 || self.round_weight(s, round) >= self.committee().quorum_threshold
        &&& s.authors((round - 1) as Round).len() > 0
    }

    /// The certificates of `round` have decided of every certificate of the round before.
    pub open spec fn all_decided(&self, s: StateView, round: Round) -> bool {
        let r = (round - 1) as Round;
        forall|a: PublicKey| #[trigger]
            s.authors(r).contains(a) ==> self.fast_status(s, round, s.certificate_at(r, a))
                != CommitStatus::Bivalent
    }

    /// The state after the fast path of a round, and what it commits.
    pub open spec fn fast_result(&self, s: StateView, round: Round) -> (
        StateView,
        Seq<CertificateView>,
    ) {
        let r = (round - 1) as Round;
        if !self.fast_path_applies(s, round) {
            (s, seq![])
        } else {
            let t = s.decided(r, |c: CertificateView| self.fast_status(s, round, c));
            if self.all_decided(s, round) {
                self.commit_round(t, r)
            } else {
                (t.with_pending(t.slow_path_pending_rounds.insert(r)), seq![])
            }
        }
    }

    /// The authority that leads a round.
    pub open spec fn leader_name(&self, round: Round) -> PublicKey {
        self.authorities()[(round as int) % (self.authorities().len() as int)]
    }

    /// The certificate of the leader of a round.
    pub open spec fn leader_entry(&self, s: StateView, round: Round) -> Option<EntryView> {
        let p = position(round, self.leader_name(round));
        if s.dag.contains_key(p) {
            Some(s.dag[p])
        } else {
            None
        }
    }

    /// The round whose leader decides of a round that the fast path left undecided.
    pub open spec fn deciding_round(&self, round: Round) -> int {
        let step = self.committee().solid_step_length;
        round + 2 * (if step == 0 {
            1
        } else {
            step as int
        })
    }

    /// The slow path looks up a leader to decide of `round`: the round is beyond what is committed,
    /// and its deciding round has come.
    pub open spec fn consults_leader(&self, s: StateView, current_round: Round, round: Round) -> bool {
        &&& round > 0
        &&& round > s.last_committed_certificate_round
        &&& self.deciding_round(round) <= current_round
    }

    /// The slow path looks up a leader for some round that is left to it.
    pub open spec fn consults_leaders(&self, s: StateView, current_round: Round) -> bool {
        exists|round: Round| #[trigger]
            s.slow_path_pending_rounds.contains(round) && self.consults_leader(
                s,
                current_round,
                round,
            )
    }

    /// The slow path can look at `round`: the deciding leader has a certificate, and a quorum has
    /// certificates in the round after it.
    pub open spec fn is_ripe(&self, s: StateView, current_round: Round, round: Round) -> bool {
        let next = (round + 1) as Round;
        &&& self.deciding_round(round) <= current_round
        &&& self.leader_entry(s, self.deciding_round(round) as Round) is Some
        &&& s.authors(next).len() > 0
        &&& self.round_weight(s, next) >= self.committee().quorum_threshold
    }

    /// What the slow path makes of one round: the state after it, what is committed, and whether the
    /// round is dealt with.
    pub open spec fn slow_step(&self, s: StateView, current_round: Round, round: Round) -> (
        StateView,
        Seq<CertificateView>,
        bool,
    ) {
        if round == 0 || round <= s.last_committed_certificate_round {
            (s, seq![], true)
        } else if !self.is_ripe(s, current_round, round) {
            (s, seq![], false)
        } else if s.authors(round).len() == 0 {
            (s, seq![], true)
        } else {
            let leader = self.leader_entry(
                s,
                self.deciding_round(round) as Round,
            )->0.certificate;
            let t = s.decided(round, |c: CertificateView| self.slow_status(s, round, leader, c));
            let result = self.commit_round(t, round);
            (result.0, result.1, true)
        }
    }

    /// What the slow path makes of a list of rounds: the state after them, what is committed, and the
    /// rounds that are dealt with.
    pub open spec fn slow_run(&self, s: StateView, current_round: Round, rounds: Seq<Round>) -> (
        StateView,
        Seq<CertificateView>,
        Set<Round>,
    )
        decreases rounds.len(),
    {
        if rounds.len() == 0 {
            (s, seq![], Set::empty())
        } else {
            let before = self.slow_run(s, current_round, rounds.drop_last());
            let step = self.slow_step(before.0, current_round, rounds.last());
            (
                step.0,
                before.1 + step.1,
                if step.2 {
                    before.2.insert(rounds.last())
                } else {
                    before.2
                },
            )
        }
    }

    /// The state after the slow path, and what it commits.
    pub open spec fn slow_result(&self, s: StateView, current_round: Round) -> (
        StateView,
        Seq<CertificateView>,
    ) {
        let run = self.slow_run(s, current_round, ordered(s.slow_path_pending_rounds));
        (run.0.with_pending(run.0.slow_path_pending_rounds.difference(run.2)), run.1)
    }

    /// The state after a certificate has arrived, and what the two paths commit.
    pub open spec fn step_result(&self, s: StateView, c: CertificateView) -> (
        StateView,
        Seq<CertificateView>,
        Seq<CertificateView>,
    ) {
        let fast = self.fast_result(s.inserted(c), c.round());
        let slow = self.slow_result(fast.0, c.round());
        (slow.0, fast.1, slow.1)
    }

    /// The leaders before `current` that are committed with it, from round `round` down to `start` in
    /// steps of `wave` rounds: each must be linked from the one after it.
    pub open spec fn leader_chain(
        &self,
        s: StateView,
        current: CertificateView,
        start: Round,
        round: int,
        wave: Round,
    ) -> Seq<CertificateView>
        decreases round - start + wave,
    {
        if round < start || wave == 0 {
            seq![]
        } else {
            match self.leader_entry(s, round as Round) {
                Some(entry) => if s.links(current, entry.certificate) {
                    seq![entry.certificate] + self.leader_chain(
                        s,
                        entry.certificate,
                        start,
                        round - wave,
                        wave,
                    )
                } else {
                    self.leader_chain(s, current, start, round - wave, wave)
                },
                None => self.leader_chain(s, current, start, round - wave, wave),
            }
        }
    }

    /// A leader and the leaders before it that are committed with it, the latest first.
    pub open spec fn ordered_leaders(&self, s: StateView, leader: CertificateView) -> Seq<
        CertificateView,
    > {
        let wave = self.committee().solid_wave_length;
        let start = s.last_committed_leader_round + wave;
        seq![leader] + if start > Round::MAX {
            seq![]
        } else {
            self.leader_chain(s, leader, start as Round, leader.round() - 1, wave)
        }
    }

    /// The leader round that belongs to a round: where the round lies one step after the start of a
    /// wave, from the third wave on, the start of the wave before.
    pub open spec fn normal_leader_round(&self, round: Round) -> Option<Round> {
        let wave = self.committee().solid_wave_length as int;
        let r = round - self.committee().solid_step_length;
        if r < 0 || r % wave != 0 || r < 2 * wave {
            None
        } else {
            Some((r - wave) as Round)
        }
    }
}

impl Consensus {
    /// The commit rules of a committee.
    pub fn new(committee: Committee, gc_depth: Round) -> (r: Self)
        ensures
            r.committee() == committee,
            r.gc_depth() == gc_depth,
    {
        let authorities: Vec<PublicKey> = committee.keys();
        let mut author_to_node: KeyMap<PublicKey, usize> = KeyMap::new();
        let mut i: usize = 0;
        while i < authorities.len()
            invariant
                i <= authorities@.len(),
                authorities@.no_duplicates(),
                forall|a: PublicKey| #[trigger]
                    author_to_node@.contains_key(a) == authorities@.take(i as int).contains(a),
                forall|j: int|
                    0 <= j < i ==> author_to_node@.contains_key(#[trigger] authorities@[j])
                        && author_to_node@[authorities@[j]] == j,
            decreases authorities@.len() - i,
        {
            let ghost held = author_to_node@;
            let _ = author_to_node.insert(authorities[i], i);
            proof {
                let taken = authorities@.take(i as int);
                let name = authorities@[i as int];
                assert(authorities@.take(i + 1) =~= taken.push(name));
                assert forall|a: PublicKey| #[trigger]
                    author_to_node@.contains_key(a) == authorities@.take(i + 1).contains(a) by {
                    lemma_push_contains(taken, name, a);
                    assert(held.contains_key(a) == taken.contains(a));
                }
            }
            i = i + 1;
        }
        proof {
            assert(authorities@.take(i as int) =~= authorities@);
            assert(author_to_node@.dom() =~= committee.members()) by {
                assert forall|a: PublicKey| author_to_node@.dom().contains(a)
                    == committee.members().contains(a) by {
                    assert(author_to_node@.contains_key(a) == authorities@.contains(a));
                    assert(authorities@.to_set().contains(a) == authorities@.contains(a));
                }
            }
        }
        Consensus { committee, authorities, author_to_node, gc_depth }
    }

    /// The node number of an authority.
    pub fn author_to_node_id(&self, author: PublicKey) -> (r: usize)
        ensures
            r == self.node_id(author),
    {
        proof {
            use_type_invariant(self);
            if self.committee.members().contains(author) {
                assert(self.authorities@.to_set().contains(author));
                assert(self.authorities@.contains(author));
                let i = self.authorities@.index_of(author);
                assert(self.authorities@[i] == author);
            }
        }
        match self.author_to_node.get(&author) {
            Some(node) => *node,
            None => UNKNOWN_NODE,
        }
    }

    /// Flattens the part of the DAG that is committed with a certificate.
    pub fn order_dag(&self, leader: &Certificate, state: &State) -> (r: Vec<Certificate>)
        requires
            state@.well_formed(),
        ensures
            certificate_views(r@) == self.ordered_dag(state@, leader@),
    {
        copy_references(&self.order_references(leader, state))
    }

    fn order_references<'a>(&self, leader: &'a Certificate, state: &'a State) -> (r: Vec<
        &'a Certificate,
    >)
        requires
            state@.well_formed(),
        ensures
            reference_views(r@) == self.ordered_dag(state@, leader@),
    {
        let met: Vec<&'a Certificate> = walk_ancestors(state, true, leader);
        let ghost views = reference_views(met@);
        let ghost recent = |c: CertificateView| self.is_recent(state@, c);
        let oldest: Round = state.last_committed_certificate_round().saturating_sub(self.gc_depth);
        let mut kept: Vec<&'a Certificate> = Vec::new();
        let mut i: usize = 0;
        proof {
            reveal(Seq::filter);
            assert(reference_views(kept@) =~= views.take(0).filter(recent));
        }
        while i < met.len()
            invariant
                i <= met@.len(),
                views == reference_views(met@),
                recent == (|c: CertificateView| self.is_recent(state@, c)),
                oldest == if state@.last_committed_certificate_round < self.gc_depth() {
                    0
                } else {
                    state@.last_committed_certificate_round - self.gc_depth()
                },
                reference_views(kept@) == views.take(i as int).filter(recent),
            decreases met@.len() - i,
        {
            let ghost held = reference_views(kept@);
            if met[i].round() >= oldest {
                kept.push(met[i]);
                assert(reference_views(kept@) =~= held.push(met@[i as int]@));
            }
            proof {
                reveal(Seq::filter);
                assert(views.take(i + 1).drop_last() =~= views.take(i as int));
                assert(views.take(i + 1).last() == met@[i as int]@);
            }
            i = i + 1;
        }
        assert(views.take(i as int) =~= views);
        sort_references(&kept)
    }

    /// What is committed with each of a list of certificates, without repetition and by round.
    pub fn collect_fast_path_commits(&self, one_valent: &Vec<&Certificate>, state: &State) -> (r: Vec<
        Certificate,
    >)
        requires
            state@.well_formed(),
        ensures
            certificate_views(r@) == self.commits(state@, reference_views(one_valent@)),
    {
        let ghost leaders = reference_views(one_valent@);
        let mut to_commit: Vec<&Certificate> = Vec::new();
        let mut seen: KeySet<Digest> = KeySet::new();
        let mut i: usize = 0;
        proof {
            assert(reference_views(to_commit@) =~= self.gathered(state@, leaders.take(0)));
            assert(digests(reference_views(to_commit@)).to_set() =~= Set::empty());
        }
        while i < one_valent.len()
            invariant
                i <= one_valent@.len(),
                state@.well_formed(),
                leaders == reference_views(one_valent@),
                reference_views(to_commit@) == self.gathered(state@, leaders.take(i as int)),
                seen@ == digests(reference_views(to_commit@)).to_set(),
            decreases one_valent@.len() - i,
        {
            let ancestors: Vec<&Certificate> = self.order_references(one_valent[i], state);
            let ghost list = reference_views(to_commit@);
            let ghost more = reference_views(ancestors@);
            let mut j: usize = 0;
            assert(list =~= merge_new(list, more.take(0)));
            while j < ancestors.len()
                invariant
                    j <= ancestors@.len(),
                    more == reference_views(ancestors@),
                    reference_views(to_commit@) == merge_new(list, more.take(j as int)),
                    seen@ == digests(reference_views(to_commit@)).to_set(),
                decreases ancestors@.len() - j,
            {
                let digest: Digest = ancestors[j].digest();
                let ghost held = reference_views(to_commit@);
                proof {
                    assert(more.take(j + 1).drop_last() =~= more.take(j as int));
                    assert(more.take(j + 1).last() == ancestors@[j as int]@);
                    assert(seen@.contains(digest) == digests(held).contains(digest));
                }
                if seen.insert(digest) {
                    to_commit.push(ancestors[j]);
                    proof {
                        assert(reference_views(to_commit@) =~= held.push(ancestors@[j as int]@));
                        assert(digests(held.push(ancestors@[j as int]@)) =~= digests(held).push(
                            digest,
                        ));
                        digests(held).lemma_push_to_set_commute(digest);
                    }
                } else {
                    assert(seen@ =~= digests(held).to_set());
                }
                j = j + 1;
            }
            proof {
                assert(more.take(j as int) =~= more);
                assert(leaders.take(i + 1).drop_last() =~= leaders.take(i as int));
                assert(leaders.take(i + 1).last() == one_valent@[i as int]@);
            }
            i = i + 1;
        }
        assert(leaders.take(i as int) =~= leaders);
        copy_references(&sort_references(&to_commit))
    }

    /// Commits what a round has decided for.
    fn commit_decided(&self, round: Round, state: &mut State) -> (r: Vec<Certificate>)
        requires
            old(state)@.well_formed(),
        ensures
            (final(state)@, certificate_views(r@)) == self.commit_round(old(state)@, round),
            final(state)@.well_formed(),
    {
        let ghost before = state@;
        let ghost one = |a: PublicKey|
            before.dag[position(round, a)].status == CommitStatus::OneValent;
        let ghost view = |a: PublicKey| before.certificate_at(round, a);
        let authors: Vec<PublicKey> = state.authors(round);
        let mut leaders: Vec<&Certificate> = Vec::new();
        let mut i: usize = 0;
        proof {
            reveal(Seq::filter);
            assert(reference_views(leaders@) =~= authors@.take(0).filter(one).map_values(view));
        }
        while i < authors.len()
            invariant
                i <= authors@.len(),
                before == state@,
                authors@.to_set() == before.authors(round),
                one == (|a: PublicKey|
                    before.dag[position(round, a)].status == CommitStatus::OneValent),
                view == (|a: PublicKey| before.certificate_at(round, a)),
                reference_views(leaders@) == authors@.take(i as int).filter(one).map_values(view),
            decreases authors@.len() - i,
        {
            let author: PublicKey = authors[i];
            let ghost held = reference_views(leaders@);
            proof {
                assert(authors@.contains(authors@[i as int]));
                assert(authors@.to_set().contains(author));
                assert(before.dag.contains_key(position(round, author)));
            }
            match state.entry(round, &author) {
                Some(entry) => {
                    if entry.status == CommitStatus::OneValent {
                        leaders.push(&entry.certificate);
                        assert(reference_views(leaders@) =~= held.push(
                            before.certificate_at(round, author),
                        ));
                    }
                },
                None => {},
            }
            proof {
                reveal(Seq::filter);
                let taken = authors@.take(i as int);
                assert(authors@.take(i + 1).drop_last() =~= taken);
                assert(authors@.take(i + 1).last() == author);
                assert(taken.filter(one).push(author).map_values(view) =~= taken.filter(
                    one,
                ).map_values(view).push(view(author)));
            }
            i = i + 1;
        }
        assert(authors@.take(i as int) =~= authors@);
        let commits: Vec<Certificate> = self.collect_fast_path_commits(&leaders, state);
        let ghost views = certificate_views(commits@);
        let mut j: usize = 0;
        while j < commits.len()
            invariant
                j <= commits@.len(),
                views == certificate_views(commits@),
                state@ == before.recorded_all(views.take(j as int)),
                state@.well_formed(),
            decreases commits@.len() - j,
        {
            state.record_commit(&commits[j]);
            j = j + 1;
            proof {
                assert(views.take(j as int).drop_last() =~= views.take(j - 1));
                assert(views.take(j as int).last() == views[j - 1]);
            }
        }
        assert(views.take(j as int) =~= views);
        state.cleanup_committed_history(self.gc_depth);
        commits
    }

    /// Adds up the stake of those authorities of a round whose certificate supports a candidate.
    fn weigh_support(
        &self,
        state: &State,
        round: Round,
        authors: &Vec<PublicKey>,
        candidate: &Certificate,
    ) -> (r: Weight)
        requires
            authors@ == ordered(state@.authors(round)),
            authors@.to_set() == state@.authors(round),
        ensures
            r == self.support_weight(state@, round, candidate@),
    {
        let ghost s = state@;
        let ghost counts = |a: PublicKey| supports(s.certificate_at(round, a), candidate@);
        let digest: Digest = candidate.digest();
        let mut weight: Weight = 0;
        let mut i: usize = 0;
        while i < authors.len()
            invariant
                i <= authors@.len(),
                s == state@,
                authors@.to_set() == s.authors(round),
                digest == candidate@.digest(),
                counts == (|a: PublicKey| supports(s.certificate_at(round, a), candidate@)),
                weight == self.committee().weight_where(authors@.take(i as int), counts),
            decreases authors@.len() - i,
        {
            let author: PublicKey = authors[i];
            proof {
                assert(authors@.take(i + 1).drop_last() =~= authors@.take(i as int));
                lemma_weight_fits(&self.committee, authors@.take(i + 1), counts);
                assert(authors@.contains(author));
                assert(authors@.to_set().contains(author));
                assert(s.dag.contains_key(position(round, author)));
            }
            match state.entry(round, &author) {
                Some(entry) => {
                    if is_supported(&entry.certificate, candidate, &digest) {
                        weight = weight + self.committee.stake(&author) as Weight;
                    }
                },
                None => {},
            }
            i = i + 1;
        }
        assert(authors@.take(i as int) =~= authors@);
        weight
    }

    /// What the certificates of `round` decide of each certificate of the round before.
    fn decide_fast(
        &self,
        state: &State,
        round: Round,
        current: &Vec<PublicKey>,
        previous: &Vec<PublicKey>,
    ) -> (r: Vec<CommitStatus>)
        requires
            round > 0,
            current@ == ordered(state@.authors(round)),
            current@.to_set() == state@.authors(round),
            previous@.to_set() == state@.authors((round - 1) as Round),
        ensures
            r@.len() == previous@.len(),
            forall|i: int|
                0 <= i < previous@.len() ==> #[trigger] r@[i] == self.fast_status(
                    state@,
                    round,
                    state@.certificate_at((round - 1) as Round, previous@[i]),
                ),
    {
        let threshold: Weight = self.committee.quorum_threshold() as Weight;
        let total: Weight = self.committee.weigh(current);
        let before: Round = round - 1;
        let mut r: Vec<CommitStatus> = Vec::new();
        let mut i: usize = 0;
        while i < previous.len()
            invariant
                i <= previous@.len(),
                round > 0,
                before == round - 1,
                threshold == self.committee().quorum_threshold,
                total == self.round_weight(state@, round),
                current@ == ordered(state@.authors(round)),
                current@.to_set() == state@.authors(round),
                previous@.to_set() == state@.authors(before),
                r@.len() == i,
                forall|j: int|
                    0 <= j < i ==> #[trigger] r@[j] == self.fast_status(
                        state@,
                        round,
                        state@.certificate_at(before, previous@[j]),
                    ),
            decreases previous@.len() - i,
        {
            let author: PublicKey = previous[i];
            proof {
                assert(previous@.contains(author));
                assert(previous@.to_set().contains(author));
                assert(state@.dag.contains_key(position(before, author)));
            }
            let mut status: CommitStatus = CommitStatus::Bivalent;
            match state.entry(before, &author) {
                Some(entry) => {
                    let support: Weight = self.weigh_support(
                        state,
                        round,
                        current,
                        &entry.certificate,
                    );
                    proof {
                        let c = entry.certificate@;
                        self.committee.lemma_weight_part(
                            current@,
                            |a: PublicKey| supports(state@.certificate_at(round, a), c),
                        );
                    }
                    if support >= threshold {
                        status = CommitStatus::OneValent;
                    } else if total - support >= threshold {
                        status = CommitStatus::ZeroValent;
                    }
                },
                None => {},
            }
            r.push(status);
            i = i + 1;
        }
        r
    }

    /// Sets the status of each certificate of a round.
    fn set_statuses(
        &self,
        state: &mut State,
        round: Round,
        authors: &Vec<PublicKey>,
        statuses: &Vec<CommitStatus>,
        Ghost(status): Ghost<spec_fn(CertificateView) -> CommitStatus>,
    )
        requires
            old(state)@.well_formed(),
            authors@.to_set() == old(state)@.authors(round),
            statuses@.len() == authors@.len(),
            forall|i: int|
                0 <= i < authors@.len() ==> #[trigger] statuses@[i] == status(
                    old(state)@.certificate_at(round, authors@[i]),
                ),
        ensures
            final(state)@ == old(state)@.decided(round, status),
            final(state)@.well_formed(),
    {
        let ghost before = state@;
        let mut i: usize = 0;
        while i < authors.len()
            invariant
                i <= authors@.len(),
                statuses@.len() == authors@.len(),
                forall|j: int|
                    0 <= j < authors@.len() ==> #[trigger] statuses@[j] == status(
                        before.certificate_at(round, authors@[j]),
                    ),
                state@ == (StateView { dag: state@.dag, ..before }),
                state@.well_formed(),
                state@.dag.dom() == before.dag.dom(),
                forall|p: DagPosition| #[trigger]
                    before.dag.contains_key(p) ==> state@.dag[p] == if p.round == round
                        && authors@.take(i as int).contains(p.author) {
                        EntryView {
                            status: status(before.dag[p].certificate),
                            ..before.dag[p]
                        }
                    } else {
                        before.dag[p]
                    },
            decreases authors@.len() - i,
        {
            let ghost held = state@;
            let p = DagPosition { round, author: authors[i] };
            proof {
                lemma_status_well_formed(state@, p, statuses@[i as int]);
                assert(authors@.take(i + 1) =~= authors@.take(i as int).push(authors@[i as int]));
            }
            state.set_status(p, statuses[i]);
            proof {
                assert(state@.dag.dom() =~= before.dag.dom());
                assert forall|q: DagPosition| #[trigger] before.dag.contains_key(q) implies
                    state@.dag[q] == if q.round == round && authors@.take(i + 1).contains(
                    q.author,
                ) {
                    EntryView { status: status(before.dag[q].certificate), ..before.dag[q] }
                } else {
                    before.dag[q]
                } by {
                    lemma_push_contains(authors@.take(i as int), authors@[i as int], q.author);
                    assert(held.dag.contains_key(q));
                    if q == p {
                        assert(statuses@[i as int] == status(
                            before.certificate_at(round, authors@[i as int]),
                        ));
                    }
                }
            }
            i = i + 1;
        }
        proof {
            assert(authors@.take(i as int) =~= authors@);
            assert forall|p: DagPosition| before.dag.contains_key(p) && p.round == round implies
                #[trigger] authors@.contains(p.author) by {
                assert(before.authors(round).contains(p.author)) by {
                    assert(p == position(round, p.author));
                }
                assert(authors@.to_set().contains(p.author));
            }
            assert(state@.dag =~= before.decided(round, status).dag);
            assert(state@ =~= before.decided(round, status));
        }
    }

    /// Decides of the certificates of the round before `round` by the support that those of `round`
    /// give them, and commits them where all are decided.
    pub fn fast_path(&self, round: Round, state: &mut State) -> (r: Vec<Certificate>)
        requires
            old(state)@.well_formed(),
        ensures
            (final(state)@, certificate_views(r@)) == self.fast_result(old(state)@, round),
            final(state)@.well_formed(),
    {
        let ghost before = state@;
        if round == 0 || round <= state.last_committed_certificate_round() {
            return no_certificates();
        }
        let current: Vec<PublicKey> = state.authors(round);
        let threshold: Weight = self.committee.quorum_threshold() as Weight;
        proof {
            lemma_len_of_set(current@);
        }
        if current.len() == 0 {
            return no_certificates();
        }
        if round > 1 && self.committee.weigh(&current) < threshold {
            return no_certificates();
        }
        let target: Round = round - 1;
        let previous: Vec<PublicKey> = state.authors(target);
        proof {
            lemma_len_of_set(previous@);
        }
        if previous.len() == 0 {
            return no_certificates();
        }
        let statuses: Vec<CommitStatus> = self.decide_fast(state, round, &current, &previous);
        let undecided: bool = has_bivalent(&statuses);
        proof {
            assert(self.fast_path_applies(before, round));
            if undecided {
                let i = choose|i: int|
                    0 <= i < statuses@.len() && statuses@[i] == CommitStatus::Bivalent;
                assert(previous@.contains(previous@[i]));
                assert(previous@.to_set().contains(previous@[i]));
                assert(before.authors(target).contains(previous@[i]));
                assert(!self.all_decided(before, round));
            } else {
                assert forall|a: PublicKey| #[trigger] before.authors(target).contains(a) implies
                    self.fast_status(before, round, before.certificate_at(target, a))
                    != CommitStatus::Bivalent by {
                    assert(previous@.to_set().contains(a));
                    let i = choose|i: int| 0 <= i < previous@.len() && previous@[i] == a;
                    assert(statuses@[i] == self.fast_status(
                        before,
                        round,
                        before.certificate_at(target, previous@[i]),
                    ));
                }
                assert(self.all_decided(before, round));
            }
        }
        self.set_statuses(
            state,
            target,
            &previous,
            &statuses,
            Ghost(|c: CertificateView| self.fast_status(before, round, c)),
        );
        if undecided {
            state.add_pending(target);
            no_certificates()
        } else {
            self.commit_decided(target, state)
        }
    }

    /// The certificate of the leader of a round.
    pub fn leader<'a>(&self, round: Round, state: &'a State) -> (r: Option<&'a DagEntry>)
        requires
            self.authorities().len() > 0,
        ensures
            match r {
                Some(entry) => self.leader_entry(state@, round) == Some(entry@),
                None => self.leader_entry(state@, round) is None,
            },
    {
        proof {
            use_type_invariant(self);
        }
        let count: u64 = self.authorities.len() as u64;
        let turn: usize = (round % count) as usize;
        let name: PublicKey = self.authorities[turn];
        state.entry(round, &name)
    }

    /// Adds up the stake of those authorities of a round whose certificate supports a candidate and
    /// is linked to a leader.
    fn weigh_connected(
        &self,
        state: &State,
        round: Round,
        authors: &Vec<PublicKey>,
        candidate: &Certificate,
        leader: &Certificate,
    ) -> (r: Weight)
        requires
            state@.well_formed(),
            authors@ == ordered(state@.authors(round)),
            authors@.to_set() == state@.authors(round),
        ensures
            r == self.connected_weight(state@, round, candidate@, leader@),
    {
        let ghost s = state@;
        let ghost counts = |a: PublicKey|
            supports(s.certificate_at(round, a), candidate@) && s.links(
                s.certificate_at(round, a),
                leader@,
            );
        let digest: Digest = candidate.digest();
        let mut weight: Weight = 0;
        let mut i: usize = 0;
        while i < authors.len()
            invariant
                i <= authors@.len(),
                s == state@,
                s.well_formed(),
                authors@.to_set() == s.authors(round),
                digest == candidate@.digest(),
                counts == (|a: PublicKey|
                    supports(s.certificate_at(round, a), candidate@) && s.links(
                        s.certificate_at(round, a),
                        leader@,
                    )),
                weight == self.committee().weight_where(authors@.take(i as int), counts),
            decreases authors@.len() - i,
        {
            let author: PublicKey = authors[i];
            proof {
                assert(authors@.take(i + 1).drop_last() =~= authors@.take(i as int));
                lemma_weight_fits(&self.committee, authors@.take(i + 1), counts);
                assert(authors@.contains(author));
                assert(authors@.to_set().contains(author));
                assert(s.dag.contains_key(position(round, author)));
            }
            match state.entry(round, &author) {
                Some(entry) => {
                    if is_supported(&entry.certificate, candidate, &digest) && linked(
                        &entry.certificate,
                        leader,
                        state,
                    ) {
                        weight = weight + self.committee.stake(&author) as Weight;
                    }
                },
                None => {},
            }
            i = i + 1;
        }
        assert(authors@.take(i as int) =~= authors@);
        weight
    }

    /// What the slow path decides of each certificate of `round`.
    fn decide_slow(
        &self,
        state: &State,
        round: Round,
        leader: &Certificate,
        authors: &Vec<PublicKey>,
        next: &Vec<PublicKey>,
    ) -> (r: Vec<CommitStatus>)
        requires
            state@.well_formed(),
            round < Round::MAX,
            authors@.to_set() == state@.authors(round),
            next@ == ordered(state@.authors((round + 1) as Round)),
            next@.to_set() == state@.authors((round + 1) as Round),
        ensures
            r@.len() == authors@.len(),
            forall|i: int|
                0 <= i < authors@.len() ==> #[trigger] r@[i] == self.slow_status(
                    state@,
                    round,
                    leader@,
                    state@.certificate_at(round, authors@[i]),
                ),
    {
        let threshold: Weight = self.committee.validity_threshold() as Weight;
        let after: Round = round + 1;
        let mut r: Vec<CommitStatus> = Vec::new();
        let mut i: usize = 0;
        while i < authors.len()
            invariant
                i <= authors@.len(),
                state@.well_formed(),
                after == round + 1,
                threshold == self.committee().validity_threshold,
                authors@.to_set() == state@.authors(round),
                next@ == ordered(state@.authors(after)),
                next@.to_set() == state@.authors(after),
                r@.len() == i,
                forall|j: int|
                    0 <= j < i ==> #[trigger] r@[j] == self.slow_status(
                        state@,
                        round,
                        leader@,
                        state@.certificate_at(round, authors@[j]),
                    ),
            decreases authors@.len() - i,
        {
            let author: PublicKey = authors[i];
            proof {
                assert(authors@.contains(author));
                assert(authors@.to_set().contains(author));
                assert(state@.dag.contains_key(position(round, author)));
            }
            let mut status: CommitStatus = CommitStatus::Pending;
            match state.entry(round, &author) {
                Some(entry) => {
                    if entry.status == CommitStatus::OneValent || entry.status
                        == CommitStatus::ZeroValent {
                        status = entry.status;
                    } else if self.weigh_connected(state, after, next, &entry.certificate, leader)
                        >= threshold {
                        status = CommitStatus::OneValent;
                    } else {
                        status = CommitStatus::ZeroValent;
                    }
                },
                None => {},
            }
            r.push(status);
            i = i + 1;
        }
        r
    }

    /// The slow path on one round does not take back the highest committed round.
    proof fn lemma_slow_step_later(&self, s: StateView, current_round: Round, round: Round)
        ensures
            self.slow_step(s, current_round, round).0.last_committed_certificate_round
                >= s.last_committed_certificate_round,
    {
        let leader = self.leader_entry(s, self.deciding_round(round) as Round)->0.certificate;
        let t = s.decided(round, |c: CertificateView| self.slow_status(s, round, leader, c));
        lemma_recorded_all_later(t, self.commits(t, t.one_valent(round)));
    }

    /// Deals with one round that the fast path left undecided. The result says whether the round is
    /// dealt with.
    fn slow_path_round(&self, current_round: Round, round: Round, state: &mut State) -> (r: (
        Vec<Certificate>,
        bool,
    ))
        requires
            old(state)@.well_formed(),
            self.consults_leader(old(state)@, current_round, round) ==> self.authorities().len()
                > 0,
        ensures
            (final(state)@, certificate_views(r.0@), r.1) == self.slow_step(
                old(state)@,
                current_round,
                round,
            ),
            final(state)@.well_formed(),
    {
        let ghost before = state@;
        if round == 0 || round <= state.last_committed_certificate_round() {
            return (no_certificates(), true);
        }
        let step_length: Round = self.committee.solid_step_length();
        let steps: u128 = if step_length == 0 {
            1
        } else {
            step_length as u128
        };
        let leader_round: u128 = round as u128 + 2 * steps;
        if leader_round > current_round as u128 {
            return (no_certificates(), false);
        }
        let authors: Vec<PublicKey> = state.authors(round);
        let next: Vec<PublicKey> = state.authors(round + 1);
        proof {
            lemma_len_of_set(authors@);
            lemma_len_of_set(next@);
        }
        let statuses: Vec<CommitStatus> = match self.leader(leader_round as Round, state) {
            None => {
                return (no_certificates(), false);
            },
            Some(entry) => {
                if next.len() == 0 || self.committee.weigh(&next)
                    < self.committee.quorum_threshold() as Weight {
                    return (no_certificates(), false);
                }
                if authors.len() == 0 {
                    return (no_certificates(), true);
                }
                self.decide_slow(state, round, &entry.certificate, &authors, &next)
            },
        };
        let ghost leader = self.leader_entry(before, leader_round as Round)->0.certificate;
        assert(self.is_ripe(before, current_round, round));
        self.set_statuses(
            state,
            round,
            &authors,
            &statuses,
            Ghost(|c: CertificateView| self.slow_status(before, round, leader, c)),
        );
        (self.commit_decided(round, state), true)
    }

    /// Decides of the rounds that the fast path left undecided, as far as `current_round` allows.
    pub fn slow_path(&self, current_round: Round, state: &mut State) -> (r: Vec<Certificate>)
        requires
            old(state)@.well_formed(),
            self.consults_leaders(old(state)@, current_round) ==> self.authorities().len() > 0,
        ensures
            (final(state)@, certificate_views(r@)) == self.slow_result(old(state)@, current_round),
            final(state)@.well_formed(),
    {
        let ghost before = state@;
        let rounds: Vec<Round> = state.pending_rounds();
        let mut resolved: Vec<Round> = Vec::new();
        let mut commits: Vec<Certificate> = no_certificates();
        let mut i: usize = 0;
        assert(resolved@.to_set() =~= Set::empty());
        while i < rounds.len()
            invariant
                i <= rounds@.len(),
                rounds@.to_set() == before.slow_path_pending_rounds,
                self.consults_leaders(before, current_round) ==> self.authorities().len() > 0,
                state@.well_formed(),
                state@.last_committed_certificate_round >= before.last_committed_certificate_round,
                ({
                    let run = self.slow_run(before, current_round, rounds@.take(i as int));
                    state@ == run.0 && certificate_views(commits@) == run.1 && resolved@.to_set()
                        == run.2
                }),
            decreases rounds@.len() - i,
        {
            let round: Round = rounds[i];
            let ghost held = certificate_views(commits@);
            proof {
                assert(rounds@.to_set().contains(round));
                self.lemma_slow_step_later(state@, current_round, round);
            }
            let (committed, done): (Vec<Certificate>, bool) = self.slow_path_round(
                current_round,
                round,
                state,
            );
            let ghost more = certificate_views(committed@);
            let mut committed: Vec<Certificate> = committed;
            commits.append(&mut committed);
            assert(certificate_views(commits@) =~= held + more);
            if done {
                proof {
                    resolved@.lemma_push_to_set_commute(round);
                }
                resolved.push(round);
            }
            proof {
                assert(rounds@.take(i + 1).drop_last() =~= rounds@.take(i as int));
                assert(rounds@.take(i + 1).last() == round);
            }
            i = i + 1;
        }
        assert(rounds@.take(i as int) =~= rounds@);
        let ghost after = state@;
        let mut j: usize = 0;
        assert(after.slow_path_pending_rounds.difference(resolved@.take(0).to_set())
            =~= after.slow_path_pending_rounds);
        while j < resolved.len()
            invariant
                j <= resolved@.len(),
                state@.well_formed(),
                state@ == after.with_pending(
                    after.slow_path_pending_rounds.difference(resolved@.take(j as int).to_set()),
                ),
            decreases resolved@.len() - j,
        {
            state.remove_pending(resolved[j]);
            j = j + 1;
            proof {
                let taken = resolved@.take(j - 1);
                assert(resolved@.take(j as int) =~= taken.push(resolved@[j - 1]));
                taken.lemma_push_to_set_commute(resolved@[j - 1]);
                assert(after.slow_path_pending_rounds.difference(taken.to_set()).remove(
                    resolved@[j - 1],
                ) =~= after.slow_path_pending_rounds.difference(
                    resolved@.take(j as int).to_set(),
                ));
            }
        }
        assert(resolved@.take(j as int) =~= resolved@);
        commits
    }

    /// Takes in a certificate, and gives what the fast path and the slow path commit.
    pub fn process_certificate(&self, certificate: Certificate, state: &mut State) -> (r: (
        Vec<Certificate>,
        Vec<Certificate>,
    ))
        requires
            old(state)@.well_formed(),
            self.consults_leaders(
                self.fast_result(old(state)@.inserted(certificate@), certificate@.round()).0,
                certificate@.round(),
            ) ==> self.authorities().len() > 0,
        ensures
            (final(state)@, certificate_views(r.0@), certificate_views(r.1@)) == self.step_result(
                old(state)@,
                certificate@,
            ),
            final(state)@.well_formed(),
    {
        let round: Round = certificate.round();
        state.insert(certificate);
        let fast: Vec<Certificate> = self.fast_path(round, state);
        let slow: Vec<Certificate> = self.slow_path(round, state);
        (fast, slow)
    }

    /// What is to be sent for a list of commits, in this order.
    pub fn emit_commits(certificates: &Vec<Certificate>) -> (r: Vec<(Destination, Certificate)>)
        ensures
            delivery_views(r@) == emitted(certificate_views(certificates@)),
    {
        let ghost commits = certificate_views(certificates@);
        let mut r: Vec<(Destination, Certificate)> = Vec::new();
        let mut i: usize = 0;
        assert(delivery_views(r@) =~= emitted(commits.take(0)));
        while i < certificates.len()
            invariant
                i <= certificates@.len(),
                commits == certificate_views(certificates@),
                delivery_views(r@) == emitted(commits.take(i as int)),
            decreases certificates@.len() - i,
        {
            let ghost held = delivery_views(r@);
            let ghost c = commits[i as int];
            r.push((Destination::Primary, certificates[i].clone()));
            r.push((Destination::Application, certificates[i].clone()));
            proof {
                assert(delivery_views(r@) =~= held.push((Destination::Primary, c)).push(
                    (Destination::Application, c),
                ));
                assert(emitted(commits.take(i + 1)) =~= held.push((Destination::Primary, c)).push(
                    (Destination::Application, c),
                ));
            }
            i = i + 1;
        }
        assert(commits.take(i as int) =~= commits);
        r
    }

    /// A leader and the leaders before it that are committed with it, the latest first.
    pub fn order_leaders(&self, leader: &Certificate, state: &State) -> (r: Vec<Certificate>)
        requires
            state@.well_formed(),
            self.committee().solid_wave_length > 0 && state@.last_committed_leader_round
                + self.committee().solid_wave_length < leader@.round()
                ==> self.authorities().len() > 0,
        ensures
            certificate_views(r@) == self.ordered_leaders(state@, leader@),
    {
        let ghost s = state@;
        let wave: Round = self.committee.solid_wave_length();
        let mut to_commit: Vec<Certificate> = Vec::new();
        to_commit.push(leader.clone());
        assert(certificate_views(to_commit@) =~= seq![leader@]);
        let last: Round = state.last_committed_leader_round();
        if wave == 0 || last > Round::MAX - wave || leader.round() == 0 {
            assert(certificate_views(to_commit@) =~= self.ordered_leaders(s, leader@));
            return to_commit;
        }
        let start: Round = last + wave;
        let mut current: &Certificate = leader;
        let mut round: Round = leader.round() - 1;
        let ghost goal = self.ordered_leaders(s, leader@);
        while round >= start
            invariant
                s == state@,
                s.well_formed(),
                round >= start ==> self.authorities().len() > 0,
                0 < wave <= start,
                goal == certificate_views(to_commit@) + self.leader_chain(
                    s,
                    current@,
                    start,
                    round as int,
                    wave,
                ),
            decreases round,
        {
            let ghost held = certificate_views(to_commit@);
            match self.leader(round, state) {
                Some(entry) => {
                    if linked(current, &entry.certificate, state) {
                        to_commit.push(entry.certificate.clone());
                        current = &entry.certificate;
                        proof {
                            let rest = self.leader_chain(s, current@, start, round - wave, wave);
                            assert(certificate_views(to_commit@) =~= held.push(current@));
                            assert(held + (seq![current@] + rest) =~= held.push(current@) + rest);
                        }
                    }
                },
                None => {},
            }
            round = round - wave;
        }
        assert(certificate_views(to_commit@) =~= goal);
        to_commit
    }

    /// The leader round that belongs to a round.
    pub fn current_normal_leader_round(&self, round: Round) -> (r: Option<Round>)
        requires
            round >= self.committee().solid_step_length ==> self.committee().solid_wave_length > 0,
        ensures
            r == self.normal_leader_round(round),
    {
        let step_length: Round = self.committee.solid_step_length();
        let wave_length: Round = self.committee.solid_wave_length();
        if round < step_length {
            return None;
        }
        let r: Round = round - step_length;
        if r % wave_length != 0 || r / 2 < wave_length {
            return None;
        }
        Some(r - wave_length)
    }

    /// Where the certificate with a digest or a header id stands.
    pub fn find_certificate_in_dag(&self, state: &State, digest: &Digest) -> (r: Option<DagPosition>)
        ensures
            r is Some == state@.digest_index.contains_key(*digest),
            r matches Some(p) ==> p == state@.digest_index[*digest],
    {
        state.find_digest(digest)
    }
}

/// No certificates.
fn no_certificates() -> (r: Vec<Certificate>)
    ensures
        certificate_views(r@) == Seq::<CertificateView>::empty(),
{
    let r: Vec<Certificate> = Vec::new();
    assert(certificate_views(r@) =~= Seq::<CertificateView>::empty());
    r
}

/// Says whether a status is open.
fn has_bivalent(statuses: &Vec<CommitStatus>) -> (r: bool)
    ensures
        r == exists|i: int| 0 <= i < statuses@.len() && statuses@[i] == CommitStatus::Bivalent,
{
    let mut i: usize = 0;
    while i < statuses.len()
        invariant
            i <= statuses@.len(),
            forall|j: int| 0 <= j < i ==> statuses@[j] != CommitStatus::Bivalent,
        decreases statuses@.len() - i,
    {
        if statuses[i] == CommitStatus::Bivalent {
            return true;
        }
        i = i + 1;
    }
    false
}

/// Says whether a certificate endorses another, whose digest is given.
fn is_supported(certificate: &Certificate, candidate: &Certificate, digest: &Digest) -> (r: bool)
    requires
        *digest == candidate@.digest(),
    ensures
        r == supports(certificate@, candidate@),
{
    certificate.header.solid_step_vertices.contains(&candidate.header.id)
        || certificate.header.solid_step_vertices.contains(digest)
}

/// Recording commits does not take back the highest committed round.
proof fn lemma_recorded_all_later(s: StateView, list: Seq<CertificateView>)
    ensures
        s.recorded_all(list).last_committed_certificate_round
            >= s.last_committed_certificate_round,
    decreases list.len(),
{
    if list.len() > 0 {
        lemma_recorded_all_later(s, list.drop_last());
    }
}

/// A list without repetition is as long as the set of its elements.
proof fn lemma_len_of_set<T>(list: Seq<T>)
    requires
        list.no_duplicates(),
    ensures
        list.len() == list.to_set().len(),
{
    list.unique_seq_to_set();
}

/// Copies of the certificates of a list of references.
fn copy_references(list: &Vec<&Certificate>) -> (r: Vec<Certificate>)
    ensures
        certificate_views(r@) == reference_views(list@),
{
    let mut r: Vec<Certificate> = Vec::new();
    let mut i: usize = 0;
    while i < list.len()
        invariant
            i <= list@.len(),
            certificate_views(r@) == reference_views(list@).take(i as int),
        decreases list@.len() - i,
    {
        let ghost held = certificate_views(r@);
        r.push(list[i].clone());
        i = i + 1;
        proof {
            assert(certificate_views(r@) =~= held.push(reference_views(list@)[i - 1]));
            assert(reference_views(list@).take(i as int) =~= reference_views(list@).take(
                i - 1,
            ).push(reference_views(list@)[i - 1]));
        }
    }
    assert(reference_views(list@).take(i as int) =~= reference_views(list@));
    r
}

} // verus!
