//! What holds of every run of the commit rules.
use vstd::prelude::*;

use crate::committee::{Committee, Round};
use crate::consensus::{emitted, Consensus};
use crate::crypto::{Digest, PublicKey};
use crate::dag::{
    lemma_cleaned_well_formed, lemma_inserted_well_formed, lemma_recorded_well_formed, position,
    CommitStatus, DagPosition, StateView,
};
use crate::keys::{lemma_ordered_finite, ordered};
use crate::messages::CertificateView;
use crate::ordering::{
    lemma_merge_members, lemma_sorted_ascends, lemma_sorted_members, rounds_ascend,
};
use crate::reachability::{lemma_ancestors_reachable, lemma_lookup, lemma_walk_reaches};
use crate::traversal::digests;

verus! {

impl StateView {
    /// A certificate stands in the DAG.
    pub open spec fn holds(self, c: CertificateView) -> bool {
        self.dag.contains_key(c.position()) && self.dag[c.position()].certificate == c
    }

    /// A state that can be: it is well formed, and the DAG and the parents of its certificates are
    /// finitely many.
    pub open spec fn is_sound(self) -> bool {
        &&& self.well_formed()
        &&& self.has_finite_links()
        &&& self.dag.dom().finite()
    }

    /// Each certificate of the DAG is found by its digest, so no two have the same.
    pub open spec fn is_indexed(self) -> bool {
        forall|p: DagPosition| #[trigger]
            self.dag.contains_key(p) ==> self.certificate_index.contains_key(self.dag[p].digest)
                && self.certificate_index[self.dag[p].digest] == p
    }
}

/// From state `s` to state `t` the certificates of a list have been committed: none of them was
/// committed before, all are after, no author and round comes twice, and nothing that was committed
/// is forgotten.
pub open spec fn commits_once(s: StateView, t: StateView, list: Seq<CertificateView>) -> bool {
    &&& forall|i: int|
        0 <= i < list.len() ==> !s.is_committed(#[trigger] list[i]) && t.is_committed(list[i])
    &&& forall|i: int, j: int|
        0 <= i < j < list.len() ==> (#[trigger] list[i]).position() != (
        #[trigger] list[j]).position()
    &&& forall|c: CertificateView| s.is_committed(c) ==> #[trigger] t.is_committed(c)
    &&& t.last_committed_certificate_round >= s.last_committed_certificate_round
}

impl Consensus {
    /// The state after a list of certificates has arrived, and all that has been committed.
    pub open spec fn run_result(&self, s: StateView, arrivals: Seq<CertificateView>) -> (
        StateView,
        Seq<CertificateView>,
    )
        decreases arrivals.len(),
    {
        if arrivals.len() == 0 {
            (s, seq![])
        } else {
            let before = self.run_result(s, arrivals.drop_last());
            let step = self.step_result(before.0, arrivals.last());
            (step.0, before.1 + step.1 + step.2)
        }
    }
}

/// Commits in two steps make up commits in one.
proof fn lemma_commits_join(
    s: StateView,
    t: StateView,
    u: StateView,
    a: Seq<CertificateView>,
    b: Seq<CertificateView>,
)
    requires
        commits_once(s, t, a),
        commits_once(t, u, b),
    ensures
        commits_once(s, u, a + b),
{
    let list = a + b;
    assert forall|i: int| 0 <= i < list.len() implies !s.is_committed(#[trigger] list[i])
        && u.is_committed(list[i]) by {
        if i < a.len() {
            assert(list[i] == a[i]);
        } else {
            assert(list[i] == b[i - a.len()]);
            assert(!t.is_committed(b[i - a.len()]));
        }
    }
    assert forall|i: int, j: int| 0 <= i < j < list.len() implies (#[trigger] list[i]).position()
        != (#[trigger] list[j]).position() by {
        if j < a.len() {
            assert(list[i] == a[i] && list[j] == a[j]);
        } else if i >= a.len() {
            assert(list[i] == b[i - a.len()] && list[j] == b[j - a.len()]);
        } else {
            assert(list[i] == a[i] && list[j] == b[j - a.len()]);
            assert(t.is_committed(a[i]));
            assert(!t.is_committed(b[j - a.len()]));
        }
    }
    assert forall|c: CertificateView| s.is_committed(c) implies #[trigger] u.is_committed(c) by {
        assert(t.is_committed(c));
    }
}

/// Recording a list of commits commits its certificates, and forgets nothing.
proof fn lemma_recorded_all(s: StateView, list: Seq<CertificateView>)
    requires
        s.well_formed(),
    ensures
        ({
            let t = s.recorded_all(list);
            &&& t.well_formed()
            &&& t.dag == s.dag
            &&& t.certificate_index == s.certificate_index
            &&& t.slow_path_pending_rounds == s.slow_path_pending_rounds
            &&& t.last_committed_certificate_round >= s.last_committed_certificate_round
            &&& forall|c: CertificateView| s.is_committed(c) ==> #[trigger] t.is_committed(c)
            &&& forall|i: int| 0 <= i < list.len() ==> t.is_committed(#[trigger] list[i])
        }),
    decreases list.len(),
{
    if list.len() > 0 {
        let before = s.recorded_all(list.drop_last());
        lemma_recorded_all(s, list.drop_last());
        lemma_recorded_well_formed(before, list.last());
        let t = s.recorded_all(list);
        assert(t == before.recorded(list.last()));
        assert forall|c: CertificateView| before.is_committed(c) implies #[trigger] t.is_committed(
            c,
        ) by {}
        assert forall|i: int| 0 <= i < list.len() implies t.is_committed(#[trigger] list[i]) by {
            if i < list.len() - 1 {
                assert(before.is_committed(list.drop_last()[i]));
            }
        }
    }
}

/// The certificates that can be reached from one of the DAG stand in the DAG, and are not rejected.
proof fn lemma_reached_held(s: StateView, c: CertificateView, d: CertificateView)
    requires
        s.well_formed(),
        s.holds(c),
        s.dag[c.position()].status != CommitStatus::ZeroValent,
        s.reaches(true, c, d),
    ensures
        s.holds(d),
        s.dag[d.position()].status != CommitStatus::ZeroValent,
    decreases c.round(),
{
    if c != d {
        let k = choose|k: Digest| #[trigger]
            c.header.parents.contains(k) && s.has_parent(true, c.round(), k) && s.reaches(
                true,
                s.parent(c.round(), k),
                d,
            );
        lemma_lookup(s, k);
        let p = s.certificate_index[k];
        assert(s.dag.contains_key(p));
        assert(s.dag[p].certificate.position() == p);
        lemma_reached_held(s, s.parent(c.round(), k), d);
    }
}

/// What may be committed in a state: it stands in the DAG, and is neither rejected nor committed nor
/// too old.
pub open spec fn may_commit(consensus: Consensus, s: StateView, c: CertificateView) -> bool {
    &&& s.holds(c)
    &&& s.dag[c.position()].status != CommitStatus::ZeroValent
    &&& !s.is_committed(c)
    &&& consensus.is_recent(s, c)
}

/// What is committed with a certificate of the DAG may be committed.
proof fn lemma_ordered_dag_members(consensus: Consensus, s: StateView, leader: CertificateView)
    requires
        s.is_sound(),
        s.holds(leader),
        s.dag[leader.position()].status != CommitStatus::ZeroValent,
    ensures
        forall|c: CertificateView| #[trigger]
            consensus.ordered_dag(s, leader).contains(c) == (s.ancestors(true, leader).contains(c)
                && consensus.is_recent(s, c)),
        forall|c: CertificateView| #[trigger]
            consensus.ordered_dag(s, leader).contains(c) ==> may_commit(consensus, s, c),
{
    let met = s.ancestors(true, leader);
    let recent = |c: CertificateView| consensus.is_recent(s, c);
    let kept = met.filter(recent);
    let none: Seq<CertificateView> = seq![];
    assert(digests(none) =~= seq![]);
    assert(s.dag.contains_key(leader.position()));
    lemma_walk_reaches(s, true, leader, none);
    lemma_sorted_members(kept);
    assert forall|c: CertificateView| #[trigger] kept.contains(c) == (met.contains(c)
        && consensus.is_recent(s, c)) by {
        lemma_filter_members(met, recent, c);
    }
    assert forall|c: CertificateView| #[trigger]
        consensus.ordered_dag(s, leader).contains(c) implies may_commit(consensus, s, c) by {
        assert(kept.contains(c));
        let i = choose|i: int| 0 <= i < met.len() && met[i] == c;
        assert(s.reaches(true, leader, met[i]));
        lemma_reached_held(s, leader, c);
    }
}

/// Filtering keeps what passes.
pub(crate) proof fn lemma_filter_members<T>(list: Seq<T>, pass: spec_fn(T) -> bool, x: T)
    ensures
        list.filter(pass).contains(x) == (list.contains(x) && pass(x)),
{
    if list.contains(x) && pass(x) {
        let i = choose|i: int| 0 <= i < list.len() && list[i] == x;
        list.lemma_filter_contains(pass, i);
    }
    if list.filter(pass).contains(x) {
        list.lemma_filter_contains_rev(pass, x);
        let i = choose|i: int| 0 <= i < list.filter(pass).len() && list.filter(pass)[i] == x;
        list.lemma_filter_pred(pass, i);
    }
}

/// A list of certificates of the DAG that are not rejected.
spec fn all_held(s: StateView, list: Seq<CertificateView>) -> bool {
    forall|i: int|
        0 <= i < list.len() ==> s.holds(#[trigger] list[i]) && s.dag[list[i].position()].status
            != CommitStatus::ZeroValent
}

/// What is gathered from certificates of the DAG may be committed, and comes once.
proof fn lemma_gathered(consensus: Consensus, s: StateView, leaders: Seq<CertificateView>)
    requires
        s.is_sound(),
        all_held(s, leaders),
    ensures
        digests(consensus.gathered(s, leaders)).no_duplicates(),
        forall|c: CertificateView| #[trigger]
            consensus.gathered(s, leaders).contains(c) ==> may_commit(consensus, s, c),
    decreases leaders.len(),
{
    if leaders.len() == 0 {
        assert(digests(consensus.gathered(s, leaders)) =~= seq![]);
    } else {
        let rest = leaders.drop_last();
        let leader = leaders.last();
        assert(leaders[leaders.len() - 1] == leader);
        assert(all_held(s, rest)) by {
            assert forall|i: int| 0 <= i < rest.len() implies s.holds(#[trigger] rest[i])
                && s.dag[rest[i].position()].status != CommitStatus::ZeroValent by {
                assert(rest[i] == leaders[i]);
            }
        }
        lemma_gathered(consensus, s, rest);
        lemma_ordered_dag_members(consensus, s, leader);
        lemma_merge_members(consensus.gathered(s, rest), consensus.ordered_dag(s, leader));
    }
}

/// The certificates that a round has decided for stand in the DAG.
proof fn lemma_one_valent(s: StateView, round: Round)
    requires
        s.well_formed(),
    ensures
        s.authors(round).finite() ==> all_held(s, s.one_valent(round)),
        s.authors(round).finite() ==> forall|c: CertificateView| #[trigger]
            s.one_valent(round).contains(c) == (s.holds(c) && c.round() == round
                && s.dag[c.position()].status == CommitStatus::OneValent),
{
    if s.authors(round).finite() {
        let one = |a: PublicKey| s.dag[position(round, a)].status == CommitStatus::OneValent;
        let view = |a: PublicKey| s.certificate_at(round, a);
        let authors = ordered(s.authors(round));
        let kept = authors.filter(one);
        let list = s.one_valent(round);
        lemma_ordered_finite(s.authors(round));
        assert(list == kept.map_values(view));
        assert forall|i: int| 0 <= i < list.len() implies s.holds(#[trigger] list[i])
            && list[i].round() == round && s.dag[list[i].position()].status
            == CommitStatus::OneValent by {
            let a = kept[i];
            assert(kept.contains(a));
            lemma_filter_members(authors, one, a);
            assert(s.authors(round).contains(a));
            assert(s.dag.contains_key(position(round, a)));
        }
        assert forall|c: CertificateView| #[trigger] list.contains(c) == (s.holds(c) && c.round()
            == round && s.dag[c.position()].status == CommitStatus::OneValent) by {
            if s.holds(c) && c.round() == round && s.dag[c.position()].status
                == CommitStatus::OneValent {
                let a = c.origin();
                assert(c.position() == position(round, a));
                assert(s.authors(round).contains(a));
                lemma_filter_members(authors, one, a);
                let i = choose|i: int| 0 <= i < kept.len() && kept[i] == a;
                assert(list[i] == c);
            }
        }
    }
}

/// Only finitely many authorities have a certificate in a round.
pub(crate) proof fn lemma_authors_finite(s: StateView, round: Round)
    requires
        s.dag.dom().finite(),
    ensures
        s.authors(round).finite(),
{
    let author = |p: DagPosition| p.author;
    s.dag.dom().lemma_map_finite(author);
    let all = s.dag.dom().map(author);
    assert(s.authors(round).subset_of(all)) by {
        assert forall|a: PublicKey| #[trigger] s.authors(round).contains(a) implies all.contains(
            a,
        ) by {
            assert(s.dag.dom().contains(position(round, a)));
            assert(author(position(round, a)) == a);
        }
    }
    vstd::set_lib::lemma_set_subset_finite(all, s.authors(round));
}

/// Committing what a round has decided for commits each certificate once, in the order of the
/// rounds.
pub proof fn lemma_commit_round(consensus: Consensus, s: StateView, round: Round)
    requires
        s.is_sound(),
    ensures
        ({
            let (t, list) = consensus.commit_round(s, round);
            &&& t.is_sound()
            &&& t.slow_path_pending_rounds == s.slow_path_pending_rounds
            &&& commits_once(s, t, list)
            &&& rounds_ascend(list)
            &&& forall|c: CertificateView| #[trigger]
                list.contains(c) ==> may_commit(consensus, s, c)
        }),
{
    let leaders = s.one_valent(round);
    let gathered = consensus.gathered(s, leaders);
    let list = consensus.commits(s, leaders);
    let recorded = s.recorded_all(list);
    let t = recorded.cleaned(consensus.gc_depth());
    lemma_authors_finite(s, round);
    lemma_one_valent(s, round);
    lemma_gathered(consensus, s, leaders);
    lemma_sorted_members(gathered);
    lemma_sorted_ascends(gathered);
    lemma_recorded_all(s, list);
    lemma_cleaned_well_formed(recorded, consensus.gc_depth());
    assert(t.dag.dom().subset_of(s.dag.dom()));
    vstd::set_lib::lemma_set_subset_finite(s.dag.dom(), t.dag.dom());
    assert(gathered.no_duplicates()) by {
        assert forall|i: int, j: int| 0 <= i < j < gathered.len() implies gathered[i]
            != gathered[j] by {
            assert(digests(gathered)[i] != digests(gathered)[j]);
        }
    }
    assert forall|i: int| 0 <= i < list.len() implies may_commit(
        consensus,
        s,
        #[trigger] list[i],
    ) by {
        assert(list.contains(list[i]));
        assert(gathered.contains(list[i]));
    }
    assert forall|i: int, j: int| 0 <= i < j < list.len() implies (#[trigger] list[i]).position()
        != (#[trigger] list[j]).position() by {
        assert(may_commit(consensus, s, list[i]));
        assert(may_commit(consensus, s, list[j]));
        assert(list[i] != list[j]);
    }
    assert forall|c: CertificateView| s.is_committed(c) implies #[trigger] t.is_committed(c) by {
        assert(recorded.is_committed(c));
    }
    assert forall|i: int| 0 <= i < list.len() implies !s.is_committed(#[trigger] list[i])
        && t.is_committed(list[i]) by {
        assert(may_commit(consensus, s, list[i]));
        assert(recorded.is_committed(list[i]));
    }
}

/// Deciding of a round commits nothing and leaves the state sound.
pub(crate) proof fn lemma_decided(s: StateView, round: Round, status: spec_fn(CertificateView) -> CommitStatus)
    requires
        s.is_sound(),
    ensures
        s.decided(round, status).is_sound(),
        commits_once(s, s.decided(round, status), seq![]),
{
    let t = s.decided(round, status);
    assert(t.dag.dom() =~= s.dag.dom());
    assert forall|p: DagPosition| #[trigger] t.dag.contains_key(p) implies s.dag.contains_key(p)
        && t.dag[p].certificate == s.dag[p].certificate && t.dag[p].digest == s.dag[p].digest by {}
    assert forall|p: DagPosition| s.dag.contains_key(p) implies #[trigger] t.dag.contains_key(p) by {}
    assert forall|c: CertificateView| s.is_committed(c) implies #[trigger] t.is_committed(c) by {}
}

/// The fast path commits each certificate once, in the order of the rounds.
pub proof fn lemma_fast_path(consensus: Consensus, s: StateView, round: Round)
    requires
        s.is_sound(),
    ensures
        ({
            let (t, list) = consensus.fast_result(s, round);
            t.is_sound() && commits_once(s, t, list) && rounds_ascend(list)
        }),
{
    if consensus.fast_path_applies(s, round) {
        let r = (round - 1) as Round;
        let status = |c: CertificateView| consensus.fast_status(s, round, c);
        let t = s.decided(r, status);
        lemma_decided(s, r, status);
        if consensus.all_decided(s, round) {
            lemma_commit_round(consensus, t, r);
            let (u, list) = consensus.commit_round(t, r);
            lemma_commits_join(s, t, u, seq![], list);
            assert(seq![] + list =~= list);
        }
    }
}

/// The slow path on one round commits each certificate once, in the order of the rounds.
pub proof fn lemma_slow_step(consensus: Consensus, s: StateView, current_round: Round, round: Round)
    requires
        s.is_sound(),
    ensures
        ({
            let (t, list, done) = consensus.slow_step(s, current_round, round);
            t.is_sound() && commits_once(s, t, list) && rounds_ascend(list)
        }),
{
    if round > s.last_committed_certificate_round && consensus.is_ripe(s, current_round, round)
        && s.authors(round).len() > 0 {
        let leader = consensus.leader_entry(
            s,
            consensus.deciding_round(round) as Round,
        )->0.certificate;
        let status = |c: CertificateView| consensus.slow_status(s, round, leader, c);
        let t = s.decided(round, status);
        lemma_decided(s, round, status);
        lemma_commit_round(consensus, t, round);
        let (u, list) = consensus.commit_round(t, round);
        lemma_commits_join(s, t, u, seq![], list);
        assert(seq![] + list =~= list);
    }
}

/// The slow path on a list of rounds commits each certificate once.
pub(crate) proof fn lemma_slow_run(
    consensus: Consensus,
    s: StateView,
    current_round: Round,
    rounds: Seq<Round>,
)
    requires
        s.is_sound(),
    ensures
        ({
            let (t, list, done) = consensus.slow_run(s, current_round, rounds);
            t.is_sound() && commits_once(s, t, list)
        }),
    decreases rounds.len(),
{
    if rounds.len() > 0 {
        lemma_slow_run(consensus, s, current_round, rounds.drop_last());
        let (t, list, done) = consensus.slow_run(s, current_round, rounds.drop_last());
        lemma_slow_step(consensus, t, current_round, rounds.last());
        let (u, more, dealt) = consensus.slow_step(t, current_round, rounds.last());
        lemma_commits_join(s, t, u, list, more);
    }
}

/// The slow path commits each certificate once.
pub proof fn lemma_slow_path(consensus: Consensus, s: StateView, current_round: Round)
    requires
        s.is_sound(),
    ensures
        ({
            let (t, list) = consensus.slow_result(s, current_round);
            t.is_sound() && commits_once(s, t, list)
        }),
{
    let rounds = ordered(s.slow_path_pending_rounds);
    lemma_slow_run(consensus, s, current_round, rounds);
    let run = consensus.slow_run(s, current_round, rounds);
    let t = consensus.slow_result(s, current_round).0;
    assert forall|c: CertificateView| s.is_committed(c) implies #[trigger] t.is_committed(c) by {
        assert(run.0.is_committed(c));
    }
    assert forall|i: int| 0 <= i < run.1.len() implies !s.is_committed(#[trigger] run.1[i])
        && t.is_committed(run.1[i]) by {
        assert(run.0.is_committed(run.1[i]));
    }
}

/// A certificate with finitely many parents leaves the state sound.
pub(crate) proof fn lemma_inserted_sound(s: StateView, c: CertificateView)
    requires
        s.is_sound(),
        c.header.parents.finite(),
    ensures
        s.inserted(c).is_sound(),
{
    let inserted = s.inserted(c);
    lemma_inserted_well_formed(s, c);
    assert(inserted.dag.dom() =~= s.dag.dom().insert(c.position()));
    assert(inserted.has_finite_links()) by {
        assert forall|p: DagPosition| #[trigger] inserted.dag.contains_key(p) implies
            inserted.dag[p].certificate.header.parents.finite() by {
            if p != c.position() {
                assert(s.dag.contains_key(p));
            }
        }
    }
}

/// Inserting certificates into the empty state commits nothing.
proof fn lemma_inserted_all_sound(list: Seq<CertificateView>)
    requires
        forall|i: int| 0 <= i < list.len() ==> (#[trigger] list[i]).header.parents.finite(),
    ensures
        StateView::empty().inserted_all(list).is_sound(),
        StateView::empty().inserted_all(list).last_committed_certificate_round == 0,
    decreases list.len(),
{
    if list.len() == 0 {
        let s = StateView::empty();
        assert(s.dag.dom() =~= Set::empty());
        assert(s.certificate_index.dom() =~= Set::empty());
    } else {
        let rest = list.drop_last();
        assert forall|i: int| 0 <= i < rest.len() implies (
        #[trigger] rest[i]).header.parents.finite() by {
            assert(rest[i] == list[i]);
        }
        lemma_inserted_all_sound(rest);
        assert(list[list.len() - 1] == list.last());
        lemma_inserted_sound(StateView::empty().inserted_all(rest), list.last());
    }
}

/// The state that the consensus starts from is sound.
pub proof fn lemma_start_sound(genesis: Seq<CertificateView>)
    requires
        forall|i: int| 0 <= i < genesis.len() ==> (#[trigger] genesis[i]).header.parents.finite(),
    ensures
        StateView::empty().inserted_all(genesis).started().is_sound(),
{
    lemma_inserted_all_sound(genesis);
}

/// The arrival of a certificate commits each certificate once.
pub proof fn lemma_step(consensus: Consensus, s: StateView, c: CertificateView)
    requires
        s.is_sound(),
        c.header.parents.finite(),
    ensures
        ({
            let (t, fast, slow) = consensus.step_result(s, c);
            t.is_sound() && commits_once(s, t, fast + slow)
        }),
{
    let inserted = s.inserted(c);
    lemma_inserted_sound(s, c);
    lemma_fast_path(consensus, inserted, c.round());
    let (t, fast) = consensus.fast_result(inserted, c.round());
    lemma_slow_path(consensus, t, c.round());
    let (u, slow) = consensus.slow_result(t, c.round());
    assert(commits_once(s, inserted, seq![])) by {
        assert forall|x: CertificateView| s.is_committed(x) implies #[trigger]
            inserted.is_committed(x) by {}
    }
    lemma_commits_join(s, inserted, t, seq![], fast);
    assert(seq![] + fast =~= fast);
    lemma_commits_join(s, t, u, fast, slow);
}

/// Nothing is committed twice: whatever certificates arrive in whatever order, no author and round
/// is committed more than once, and nothing that had been committed before is committed again.
pub proof fn lemma_nothing_twice(
    consensus: Consensus,
    s: StateView,
    arrivals: Seq<CertificateView>,
)
    requires
        s.is_sound(),
        forall|i: int| 0 <= i < arrivals.len() ==> (#[trigger] arrivals[i]).header.parents.finite(),
    ensures
        ({
            let (t, list) = consensus.run_result(s, arrivals);
            t.is_sound() && commits_once(s, t, list)
        }),
    decreases arrivals.len(),
{
    if arrivals.len() > 0 {
        let rest = arrivals.drop_last();
        assert forall|i: int| 0 <= i < rest.len() implies (
        #[trigger] rest[i]).header.parents.finite() by {
            assert(rest[i] == arrivals[i]);
        }
        lemma_nothing_twice(consensus, s, rest);
        let (t, list) = consensus.run_result(s, rest);
        assert(arrivals[arrivals.len() - 1] == arrivals.last());
        lemma_step(consensus, t, arrivals.last());
        let (u, fast, slow) = consensus.step_result(t, arrivals.last());
        lemma_commits_join(s, t, u, list, fast + slow);
        assert(list + (fast + slow) =~= list + fast + slow);
    }
}

/// Commits that are sent one list after the other are sent as if they were one list.
pub proof fn lemma_emitted_join(a: Seq<CertificateView>, b: Seq<CertificateView>)
    ensures
        emitted(a + b) == emitted(a) + emitted(b),
{
    let whole = emitted(a + b);
    let parts = emitted(a) + emitted(b);
    assert forall|i: int| 0 <= i < whole.len() implies whole[i] == parts[i] by {
        if i >= 2 * a.len() {
            let j = i - 2 * a.len();
            assert(parts[i] == emitted(b)[j]);
            assert(i % 2 == j % 2 && i / 2 == a.len() + j / 2);
        }
    }
    assert(whole =~= parts);
}

/// Nothing is sent twice: whatever certificates arrive, no author and round goes more than once to
/// the primary, nor more than once to the application.
pub proof fn lemma_nothing_sent_twice(
    consensus: Consensus,
    s: StateView,
    arrivals: Seq<CertificateView>,
)
    requires
        s.is_sound(),
        forall|i: int| 0 <= i < arrivals.len() ==> (#[trigger] arrivals[i]).header.parents.finite(),
    ensures
        ({
            let sent = emitted(consensus.run_result(s, arrivals).1);
            forall|i: int, j: int|
                0 <= i < j < sent.len() && (#[trigger] sent[i]).0 == (#[trigger] sent[j]).0
                    ==> sent[i].1.position() != sent[j].1.position()
        }),
{
    lemma_nothing_twice(consensus, s, arrivals);
    let list = consensus.run_result(s, arrivals).1;
    let sent = emitted(list);
    assert forall|i: int, j: int|
        0 <= i < j < sent.len() && (#[trigger] sent[i]).0 == (
        #[trigger] sent[j]).0 implies sent[i].1.position() != sent[j].1.position() by {
        assert(i / 2 < j / 2);
        assert(list[i / 2].position() != list[j / 2].position());
    }
}

/// A certificate of an indexed DAG is the one found by its digest.
proof fn lemma_held_found(s: StateView, c: CertificateView)
    requires
        s.well_formed(),
        s.is_indexed(),
        s.holds(c),
    ensures
        s.lookup(c.digest()) is Some,
        s.lookup(c.digest())->0.certificate == c,
        s.is_unmistaken(c),
{
    assert(s.dag.contains_key(c.position()));
    assert(s.dag[c.position()].digest == c.digest());
}

/// What is gathered from a list of certificates: the recent certificates that can be reached from
/// one of them that is not committed.
proof fn lemma_gathered_exactly(
    consensus: Consensus,
    s: StateView,
    leaders: Seq<CertificateView>,
    c: CertificateView,
)
    requires
        s.is_sound(),
        s.is_indexed(),
        all_held(s, leaders),
    ensures
        consensus.gathered(s, leaders).contains(c) == (consensus.is_recent(s, c) && exists|i: int|
            0 <= i < leaders.len() && !s.is_committed(#[trigger] leaders[i]) && s.reaches(
                true,
                leaders[i],
                c,
            )),
    decreases leaders.len(),
{
    if leaders.len() > 0 {
        let rest = leaders.drop_last();
        let leader = leaders.last();
        let earlier = consensus.gathered(s, rest);
        let more = consensus.ordered_dag(s, leader);
        let all = consensus.gathered(s, leaders);
        assert(leaders[leaders.len() - 1] == leader);
        assert(all_held(s, rest)) by {
            assert forall|i: int| 0 <= i < rest.len() implies s.holds(#[trigger] rest[i])
                && s.dag[rest[i].position()].status != CommitStatus::ZeroValent by {
                assert(rest[i] == leaders[i]);
            }
        }
        lemma_gathered_exactly(consensus, s, rest, c);
        lemma_gathered(consensus, s, leaders);
        lemma_ordered_dag_members(consensus, s, leader);
        lemma_held_found(s, leader);
        assert(s.dag.contains_key(leader.position()));
        lemma_ancestors_reachable(s, true, leader);
        lemma_merge_members(earlier, more);
        let ancestors = s.ancestors(true, leader);
        if earlier.contains(c) {
            let i = choose|i: int| 0 <= i < earlier.len() && earlier[i] == c;
            assert(all[i] == c);
            let j = choose|j: int|
                0 <= j < rest.len() && !s.is_committed(#[trigger] rest[j]) && s.reaches(
                    true,
                    rest[j],
                    c,
                );
            assert(leaders[j] == rest[j]);
        }
        if more.contains(c) {
            assert(digests(all).contains(c.digest()));
            let i = choose|i: int| 0 <= i < digests(all).len() && digests(all)[i] == c.digest();
            assert(all.contains(all[i]));
            assert(may_commit(consensus, s, all[i]));
            assert(may_commit(consensus, s, c));
            lemma_held_found(s, c);
            lemma_held_found(s, all[i]);
            assert(all[i] == c);
            assert(ancestors.contains(c));
            assert(!s.is_committed(leaders[leaders.len() - 1]));
        }
        if consensus.is_recent(s, c) && exists|i: int|
            0 <= i < leaders.len() && !s.is_committed(#[trigger] leaders[i]) && s.reaches(
                true,
                leaders[i],
                c,
            ) {
            let i = choose|i: int|
                0 <= i < leaders.len() && !s.is_committed(#[trigger] leaders[i]) && s.reaches(
                    true,
                    leaders[i],
                    c,
                );
            if i < rest.len() {
                assert(rest[i] == leaders[i]);
            } else {
                assert(ancestors.contains(c));
                assert(more.contains(c));
            }
        }
    }
}

/// What a round commits is exactly this: the recent certificates that can be reached from one that
/// the round has decided for and that is not committed, along parents that are neither rejected nor
/// committed.
pub proof fn lemma_commits_exactly(
    consensus: Consensus,
    s: StateView,
    round: Round,
    c: CertificateView,
)
    requires
        s.is_sound(),
        s.is_indexed(),
    ensures
        consensus.commit_round(s, round).1.contains(c) == (consensus.is_recent(s, c) && exists|
            d: CertificateView,
        |
            #[trigger] s.reaches(true, d, c) && s.holds(d) && d.round() == round
                && s.dag[d.position()].status == CommitStatus::OneValent && !s.is_committed(d)),
{
    let leaders = s.one_valent(round);
    lemma_authors_finite(s, round);
    lemma_one_valent(s, round);
    lemma_gathered_exactly(consensus, s, leaders, c);
    lemma_sorted_members(consensus.gathered(s, leaders));
    if exists|i: int|
        0 <= i < leaders.len() && !s.is_committed(#[trigger] leaders[i]) && s.reaches(
            true,
            leaders[i],
            c,
        ) {
        let i = choose|i: int|
            0 <= i < leaders.len() && !s.is_committed(#[trigger] leaders[i]) && s.reaches(
                true,
                leaders[i],
                c,
            );
        assert(leaders.contains(leaders[i]));
        assert(s.reaches(true, leaders[i], c) && s.holds(leaders[i]));
    }
    if exists|d: CertificateView|
        #[trigger] s.reaches(true, d, c) && s.holds(d) && d.round() == round
            && s.dag[d.position()].status == CommitStatus::OneValent && !s.is_committed(d) {
        let d = choose|d: CertificateView|
            #[trigger] s.reaches(true, d, c) && s.holds(d) && d.round() == round
                && s.dag[d.position()].status == CommitStatus::OneValent && !s.is_committed(d);
        assert(leaders.contains(d));
        let i = choose|i: int| 0 <= i < leaders.len() && leaders[i] == d;
        assert(!s.is_committed(leaders[i]));
    }
}

/// What the fast path has decided of a certificate the slow path leaves as it is.
pub proof fn lemma_decisions_stand(
    consensus: Consensus,
    s: StateView,
    round: Round,
    leader: CertificateView,
    c: CertificateView,
)
    requires
        s.holds(c),
        s.dag[c.position()].status == CommitStatus::OneValent || s.dag[c.position()].status
            == CommitStatus::ZeroValent,
    ensures
        consensus.slow_status(s, round, leader, c) == s.dag[c.position()].status,
{
}

/// A certificate cannot have a quorum for it and a quorum against it, where the quorum is more than
/// half of the stake that the round has.
pub proof fn lemma_decisions_exclude(
    consensus: Consensus,
    s: StateView,
    round: Round,
    candidate: CertificateView,
)
    requires
        2 * consensus.committee().quorum_threshold > consensus.round_weight(s, round),
    ensures
        !(consensus.support_weight(s, round, candidate) >= consensus.committee().quorum_threshold
            && consensus.round_weight(s, round) - consensus.support_weight(s, round, candidate)
            >= consensus.committee().quorum_threshold),
{
}

/// A certificate that has been inserted is found by its digest, and both its digest and its header id
/// lead to its place.
pub proof fn lemma_inserted_found(s: StateView, c: CertificateView)
    ensures
        s.inserted(c).lookup(c.digest()) == Some(c.entry(CommitStatus::Pending)),
        s.inserted(c).digest_index.contains_key(c.digest()),
        s.inserted(c).digest_index.contains_key(c.header.id),
        s.inserted(c).digest_index[c.header.id] == c.position(),
        s.inserted(c).digest_index[c.digest()] == c.position(),
{
}

/// Committing what a round has decided for leaves every certificate of the DAG to be found by its
/// digest.
pub(crate) proof fn lemma_commit_round_indexed(consensus: Consensus, s: StateView, round: Round)
    requires
        s.is_sound(),
        s.is_indexed(),
    ensures
        consensus.commit_round(s, round).0.is_indexed(),
{
    let gc_depth = consensus.gc_depth();
    let recorded = s.recorded_all(consensus.commits(s, s.one_valent(round)));
    let t = recorded.cleaned(gc_depth);
    lemma_recorded_all(s, consensus.commits(s, s.one_valent(round)));
    assert forall|p: DagPosition| #[trigger] t.dag.contains_key(p) implies
        t.certificate_index.contains_key(t.dag[p].digest) && t.certificate_index[t.dag[p].digest]
        == p by {
        let d = s.dag[p].digest;
        assert(s.dag.contains_key(p));
        if recorded.drops_digest(gc_depth, d) {
            let q = choose|q: DagPosition| #[trigger]
                recorded.dag.contains_key(q) && !recorded.keeps(gc_depth, q)
                    && recorded.dag[q].digest == d;
            assert(s.dag.contains_key(q));
        }
    }
}

/// Deciding of a round leaves every certificate of the DAG to be found by its digest.
pub(crate) proof fn lemma_decided_indexed(
    s: StateView,
    round: Round,
    status: spec_fn(CertificateView) -> CommitStatus,
)
    requires
        s.is_indexed(),
    ensures
        s.decided(round, status).is_indexed(),
{
    let t = s.decided(round, status);
    assert forall|p: DagPosition| #[trigger] t.dag.contains_key(p) implies
        t.certificate_index.contains_key(t.dag[p].digest) && t.certificate_index[t.dag[p].digest]
        == p by {
        assert(s.dag.contains_key(p));
    }
}

/// The slow path on a list of rounds leaves every certificate of the DAG to be found by its digest.
pub(crate) proof fn lemma_slow_run_indexed(
    consensus: Consensus,
    s: StateView,
    current_round: Round,
    rounds: Seq<Round>,
)
    requires
        s.is_sound(),
        s.is_indexed(),
    ensures
        consensus.slow_run(s, current_round, rounds).0.is_indexed(),
    decreases rounds.len(),
{
    if rounds.len() > 0 {
        lemma_slow_run(consensus, s, current_round, rounds.drop_last());
        lemma_slow_run_indexed(consensus, s, current_round, rounds.drop_last());
        let t = consensus.slow_run(s, current_round, rounds.drop_last()).0;
        let round = rounds.last();
        let leader = consensus.leader_entry(
            t,
            consensus.deciding_round(round) as Round,
        )->0.certificate;
        let status = |c: CertificateView| consensus.slow_status(t, round, leader, c);
        lemma_decided(t, round, status);
        lemma_decided_indexed(t, round, status);
        lemma_commit_round_indexed(consensus, t.decided(round, status), round);
    }
}

/// As long as no certificate arrives with the digest of another one, every certificate of the DAG is
/// found by its digest.
pub proof fn lemma_step_indexed(consensus: Consensus, s: StateView, c: CertificateView)
    requires
        s.is_sound(),
        s.is_indexed(),
        c.header.parents.finite(),
        forall|p: DagPosition| #[trigger]
            s.dag.contains_key(p) && s.dag[p].digest == c.digest() ==> p == c.position(),
    ensures
        consensus.step_result(s, c).0.is_indexed(),
{
    let inserted = s.inserted(c);
    lemma_inserted_sound(s, c);
    assert(inserted.is_indexed()) by {
        assert forall|p: DagPosition| #[trigger] inserted.dag.contains_key(p) implies
            inserted.certificate_index.contains_key(inserted.dag[p].digest)
            && inserted.certificate_index[inserted.dag[p].digest] == p by {
            if p != c.position() {
                assert(s.dag.contains_key(p));
                assert(s.dag[p].digest != c.digest());
            }
        }
    }
    let round = c.round();
    let r = (round - 1) as Round;
    let status = |x: CertificateView| consensus.fast_status(inserted, round, x);
    lemma_decided(inserted, r, status);
    lemma_decided_indexed(inserted, r, status);
    lemma_commit_round_indexed(consensus, inserted.decided(r, status), r);
    lemma_fast_path(consensus, inserted, round);
    let t = consensus.fast_result(inserted, round).0;
    assert(t.is_indexed());
    lemma_slow_run_indexed(consensus, t, round, ordered(t.slow_path_pending_rounds));
}

/// The leaders that are committed together begin with the given one; each is linked to the next, and
/// the rounds go down.
pub proof fn lemma_leaders_linked(consensus: Consensus, s: StateView, leader: CertificateView)
    requires
        s.well_formed(),
    ensures
        ({
            let list = consensus.ordered_leaders(s, leader);
            &&& list.len() > 0 && list[0] == leader
            &&& forall|i: int|
                0 <= i < list.len() - 1 ==> #[trigger] is_chained(s, list, i)
        }),
{
    let wave = consensus.committee().solid_wave_length;
    let start = s.last_committed_leader_round + wave;
    let list = consensus.ordered_leaders(s, leader);
    if start <= Round::MAX {
        lemma_chain_linked(consensus, s, leader, start as Round, leader.round() - 1, wave);
        assert(list =~= seq![leader] + consensus.leader_chain(
            s,
            leader,
            start as Round,
            leader.round() - 1,
            wave,
        ));
    } else {
        assert(list =~= seq![leader]);
    }
}

/// A leader of a list is linked to the next one, which is of an earlier round.
pub open spec fn is_chained(s: StateView, list: Seq<CertificateView>, i: int) -> bool {
    s.links(list[i], list[i + 1]) && list[i + 1].round() < list[i].round()
}

/// A chain of leaders is linked.
proof fn lemma_chain_linked(
    consensus: Consensus,
    s: StateView,
    current: CertificateView,
    start: Round,
    round: int,
    wave: Round,
)
    requires
        s.well_formed(),
        round < current.round(),
    ensures
        ({
            let list = seq![current] + consensus.leader_chain(s, current, start, round, wave);
            forall|i: int| 0 <= i < list.len() - 1 ==> #[trigger] is_chained(s, list, i)
        }),
    decreases round - start + wave,
{
    let list = seq![current] + consensus.leader_chain(s, current, start, round, wave);
    if round >= start && wave > 0 {
        match consensus.leader_entry(s, round as Round) {
            Some(entry) => {
                let c = entry.certificate;
                let p = position(round as Round, consensus.leader_name(round as Round));
                assert(s.dag.contains_key(p));
                assert(c.round() == round);
                if s.links(current, c) {
                    lemma_chain_linked(consensus, s, c, start, round - wave, wave);
                    let rest = seq![c] + consensus.leader_chain(s, c, start, round - wave, wave);
                    assert(list =~= seq![current] + rest);
                    assert forall|i: int| 0 <= i < list.len() - 1 implies #[trigger] is_chained(
                        s,
                        list,
                        i,
                    ) by {
                        assert(list[i + 1] == rest[i]);
                        if i > 0 {
                            assert(is_chained(s, rest, i - 1));
                            assert(list[i] == rest[i - 1]);
                        } else {
                            assert(list[0] == current && rest[0] == c);
                        }
                    }
                } else {
                    lemma_chain_linked(consensus, s, current, start, round - wave, wave);
                    assert(list == seq![current] + consensus.leader_chain(
                        s,
                        current,
                        start,
                        round - wave,
                        wave,
                    ));
                }
            },
            None => {
                lemma_chain_linked(consensus, s, current, start, round - wave, wave);
                assert(list == seq![current] + consensus.leader_chain(
                    s,
                    current,
                    start,
                    round - wave,
                    wave,
                ));
            },
        }
    } else {
        assert(list =~= seq![current]);
    }
}

/// The slow path leaves no round to itself that the fast path had not left to it.
pub proof fn lemma_slow_pending(consensus: Consensus, s: StateView, current_round: Round)
    requires
        s.is_sound(),
    ensures
        consensus.slow_result(s, current_round).0.slow_path_pending_rounds.subset_of(
            s.slow_path_pending_rounds,
        ),
{
    lemma_slow_run_pending(consensus, s, current_round, ordered(s.slow_path_pending_rounds));
}

/// The slow path on a list of rounds leaves the pending rounds as they are.
pub(crate) proof fn lemma_slow_run_pending(
    consensus: Consensus,
    s: StateView,
    current_round: Round,
    rounds: Seq<Round>,
)
    requires
        s.is_sound(),
    ensures
        consensus.slow_run(s, current_round, rounds).0.slow_path_pending_rounds
            == s.slow_path_pending_rounds,
    decreases rounds.len(),
{
    if rounds.len() > 0 {
        lemma_slow_run(consensus, s, current_round, rounds.drop_last());
        lemma_slow_run_pending(consensus, s, current_round, rounds.drop_last());
        let t = consensus.slow_run(s, current_round, rounds.drop_last()).0;
        let round = rounds.last();
        let leader = consensus.leader_entry(
            t,
            consensus.deciding_round(round) as Round,
        )->0.certificate;
        let status = |c: CertificateView| consensus.slow_status(t, round, leader, c);
        lemma_decided(t, round, status);
        lemma_commit_round(consensus, t.decided(round, status), round);
    }
}

/// No round but that of the genesis is left to the slow path.
pub open spec fn leaves_no_round(s: StateView) -> bool {
    forall|r: Round| #[trigger] s.slow_path_pending_rounds.contains(r) ==> r == 0
}

/// Recording commits leaves the pending rounds as they are.
proof fn lemma_recorded_all_pending(s: StateView, list: Seq<CertificateView>)
    ensures
        s.recorded_all(list).slow_path_pending_rounds == s.slow_path_pending_rounds,
    decreases list.len(),
{
    if list.len() > 0 {
        lemma_recorded_all_pending(s, list.drop_last());
    }
}

/// The slow path leaves the state as it is where there is nothing to decide.
proof fn lemma_slow_run_idle(
    consensus: Consensus,
    s: StateView,
    current_round: Round,
    rounds: Seq<Round>,
)
    requires
        forall|i: int| 0 <= i < rounds.len() ==> #[trigger] rounds[i] == 0,
    ensures
        consensus.slow_run(s, current_round, rounds).0 == s,
    decreases rounds.len(),
{
    if rounds.len() > 0 {
        lemma_slow_run_idle(consensus, s, current_round, rounds.drop_last());
        assert(rounds[rounds.len() - 1] == 0);
    }
}

/// Authorities without stake have no weight.
proof fn lemma_weightless(committee: &Committee, names: Seq<PublicKey>)
    requires
        committee.members() == Set::<PublicKey>::empty(),
    ensures
        committee.weight(names) == 0,
    decreases names.len(),
{
    if names.len() > 0 {
        lemma_weightless(committee, names.drop_last());
        assert(!committee.members().contains(names.last()));
    }
}

/// Without authorities no leader is ever looked up: as nobody reaches a quorum, no round but that of
/// the genesis is left to the slow path, whatever certificate arrives.
pub proof fn lemma_no_leader_without_authorities(
    consensus: Consensus,
    s: StateView,
    c: CertificateView,
)
    requires
        consensus.committee().members() == Set::<PublicKey>::empty(),
        consensus.committee().quorum_threshold > 0,
        s.slow_path_pending_rounds.finite(),
        leaves_no_round(s),
    ensures
        ({
            let fast = consensus.fast_result(s.inserted(c), c.round()).0;
            &&& !consensus.consults_leaders(fast, c.round())
            &&& leaves_no_round(consensus.step_result(s, c).0)
        }),
{
    let before = s.inserted(c);
    let round = c.round();
    let fast = consensus.fast_result(before, round).0;
    lemma_weightless(&consensus.committee(), ordered(before.authors(round)));
    if consensus.fast_path_applies(before, round) {
        let r = (round - 1) as Round;
        let t = before.decided(r, |x: CertificateView| consensus.fast_status(before, round, x));
        lemma_recorded_all_pending(t, consensus.commits(t, t.one_valent(r)));
    }
    assert(leaves_no_round(fast));
    let rounds = ordered(fast.slow_path_pending_rounds);
    lemma_ordered_finite(fast.slow_path_pending_rounds);
    assert forall|i: int| 0 <= i < rounds.len() implies #[trigger] rounds[i] == 0 by {
        assert(rounds.contains(rounds[i]));
    }
    lemma_slow_run_idle(consensus, fast, round, rounds);
}

} // verus!
