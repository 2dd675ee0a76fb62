//! In which order the DAG is walked, and what comes of a walk.
use vstd::prelude::*;

use crate::committee::{Committee, Round};
use crate::consensus::{emitted, Consensus, Destination};
use crate::crypto::{Digest, PublicKey};
use crate::dag::{CommitStatus, DagPosition, StateView};
use crate::keys::{lemma_ordered_finite, lemma_sorted_distinct, ordered};
use crate::messages::CertificateView;
use crate::ordering::{lemma_sorted_ascends, lemma_sorted_members, lemma_sorted_same};
use crate::paths::{has_open_path, is_past, lemma_path_reaches, lemma_reaches_path, place};
use crate::reachability::lemma_ancestors_reachable;
use crate::safety::lemma_filter_members;

verus! {

/// A certificate with this digest is in a list.
pub open spec fn is_met(seen: Seq<CertificateView>, d: Digest) -> bool {
    exists|i: int| 0 <= i < seen.len() && (#[trigger] seen[i]).digest() == d
}

/// A digest names a certificate of the DAG of an earlier round, to which a walk goes on. Where the walk
/// looks for what to commit, that must be neither rejected nor met nor committed.
pub open spec fn goes_on(
    s: StateView,
    trim: bool,
    round: Round,
    d: Digest,
    seen: Seq<CertificateView>,
) -> bool {
    let entry = s.dag[s.certificate_index[d]];
    &&& s.certificate_index.contains_key(d)
    &&& s.dag.contains_key(s.certificate_index[d])
    &&& entry.certificate.header.round < round
    &&& trim ==> entry.status != CommitStatus::ZeroValent && !is_met(seen, entry.digest) && !is_past(
        s,
        entry.certificate,
    )
}

/// The certificates that a walk goes on to, out of a list of digests, in the order of the list.
pub open spec fn next_ones(
    s: StateView,
    trim: bool,
    round: Round,
    list: Seq<Digest>,
    seen: Seq<CertificateView>,
) -> Seq<CertificateView>
    decreases list.len(),
{
    if list.len() == 0 {
        seq![]
    } else {
        let rest = next_ones(s, trim, round, list.skip(1), seen);
        if goes_on(s, trim, round, list[0], seen) {
            seq![s.dag[s.certificate_index[list[0]]].certificate] + rest
        } else {
            rest
        }
    }
}

/// What a depth-first walk from a certificate has met in the end: nothing new where the certificate has
/// been met, or is committed and the walk looks for what to commit; otherwise the certificate itself,
/// and then what the walks from its parents meet, the one with the greatest digest first.
pub open spec fn visited(
    s: StateView,
    trim: bool,
    c: CertificateView,
    seen: Seq<CertificateView>,
) -> Seq<CertificateView>
    decreases c.header.round as nat, 1nat, 0nat,
{
    if is_met(seen, c.digest()) || (trim && is_past(s, c)) {
        seen
    } else {
        let parents = ordered(c.header.parents).reverse();
        visited_each(
            s,
            trim,
            c.header.round as nat,
            next_ones(s, trim, c.header.round, parents, seen.push(c)),
            seen.push(c),
        )
    }
}

/// What walks from each of a list of certificates below a round have met in the end, the first one
/// first.
pub open spec fn visited_each(
    s: StateView,
    trim: bool,
    bound: nat,
    list: Seq<CertificateView>,
    seen: Seq<CertificateView>,
) -> Seq<CertificateView>
    decreases bound, 0nat, list.len(),
{
    if list.len() == 0 || list[0].header.round >= bound {
        seen
    } else {
        visited_each(s, trim, bound, list.skip(1), visited(s, trim, list[0], seen))
    }
}

/// The certificates that a walk goes on to, with the last digest of a list apart.
proof fn lemma_next_push(
    s: StateView,
    trim: bool,
    round: Round,
    list: Seq<Digest>,
    d: Digest,
    seen: Seq<CertificateView>,
)
    ensures
        next_ones(s, trim, round, seq![d] + list, seen) == (if goes_on(s, trim, round, d, seen) {
            seq![s.dag[s.certificate_index[d]].certificate] + next_ones(s, trim, round, list, seen)
        } else {
            next_ones(s, trim, round, list, seen)
        }),
{
    assert((seq![d] + list).skip(1) =~= list);
}

/// The stack of a walk holds what it goes on to in the reverse order.
proof fn lemma_next_reversed(
    s: StateView,
    trim: bool,
    round: Round,
    list: Seq<Digest>,
    seen: Seq<CertificateView>,
)
    ensures
        next_ones(s, trim, round, list.reverse(), seen) == s.followed(
            trim,
            round,
            list,
            seen,
        ).reverse(),
    decreases list.len(),
{
    if list.len() == 0 {
        assert(list.reverse() =~= seq![]);
        assert(s.followed(trim, round, list, seen).reverse() =~= seq![]);
    } else {
        let rest = list.drop_last();
        let d = list.last();
        lemma_next_reversed(s, trim, round, rest, seen);
        assert(list.reverse() =~= seq![d] + rest.reverse());
        lemma_next_push(s, trim, round, rest.reverse(), d, seen);
        let earlier = s.followed(trim, round, rest, seen);
        if s.certificate_index.contains_key(d) && s.dag.contains_key(s.certificate_index[d]) {
            let entry = s.dag[s.certificate_index[d]];
            lemma_met(seen, entry.digest);
            assert(earlier.push(entry.certificate).reverse() =~= seq![entry.certificate]
                + earlier.reverse());
        }
    }
}

/// A digest is among those of a list exactly if a certificate of the list has it.
proof fn lemma_met(seen: Seq<CertificateView>, d: Digest)
    ensures
        crate::traversal::digests(seen).contains(d) == is_met(seen, d),
{
    let all = crate::traversal::digests(seen);
    if all.contains(d) {
        let i = choose|i: int| 0 <= i < all.len() && all[i] == d;
        assert(seen[i].digest() == d);
    }
    if is_met(seen, d) {
        let i = choose|i: int| 0 <= i < seen.len() && (#[trigger] seen[i]).digest() == d;
        assert(all[i] == d);
    }
}

/// The walk is depth first, and in pre-order.
pub proof fn lemma_depth_first(
    s: StateView,
    trim: bool,
    c: CertificateView,
    seen: Seq<CertificateView>,
)
    ensures
        s.walk(trim, c, seen) == visited(s, trim, c, seen),
    decreases c.header.round as nat, 1nat, 0nat,
{
    lemma_met(seen, c.digest());
    if !s.stops(trim, c, seen) {
        let parents = ordered(c.header.parents);
        let more = seen.push(c);
        lemma_next_reversed(s, trim, c.header.round, parents, more);
        let next = s.followed(trim, c.header.round, parents, more);
        lemma_each_first(s, trim, next, c.header.round as nat, more);
    }
}

/// Walking from a stack is walking from its list turned round.
proof fn lemma_each_first(
    s: StateView,
    trim: bool,
    list: Seq<CertificateView>,
    bound: nat,
    seen: Seq<CertificateView>,
)
    ensures
        s.walk_all(trim, list, bound, seen) == visited_each(s, trim, bound, list.reverse(), seen),
    decreases bound, 0nat, list.len(),
{
    if list.len() > 0 && list.last().header.round < bound {
        let turned = list.reverse();
        assert(turned[0] == list.last());
        assert(turned.skip(1) =~= list.drop_last().reverse());
        lemma_depth_first(s, trim, list.last(), seen);
        lemma_each_first(s, trim, list.drop_last(), bound, s.walk(trim, list.last(), seen));
    } else if list.len() > 0 {
        assert(list.reverse()[0] == list.last());
    }
}

/// What is committed with a certificate: nothing if it is committed; otherwise just what is not too old
/// and lies on an open path from it, each once and by round.
pub proof fn lemma_order_dag(consensus: Consensus, s: StateView, leader: CertificateView)
    requires
        s.is_sound(),
        s.is_indexed(),
        leader.header.parents.finite(),
        s.is_unmistaken(leader),
    ensures
        ({
            let list = consensus.ordered_dag(s, leader);
            &&& forall|c: CertificateView| #[trigger]
                list.contains(c) <==> !is_past(s, leader) && has_open_path(s, leader, c)
                    && c.header.round + consensus.gc_depth() >= s.last_committed_certificate_round
            &&& forall|i: int, j: int|
                0 <= i < j < list.len() ==> (#[trigger] list[i]).header.round <= (
                #[trigger] list[j]).header.round
            &&& list.no_duplicates()
        }),
{
    let met = s.ancestors(true, leader);
    let recent = |c: CertificateView| consensus.is_recent(s, c);
    let kept = met.filter(recent);
    let list = consensus.ordered_dag(s, leader);
    lemma_ancestors_reachable(s, true, leader);
    lemma_sorted_members(kept);
    lemma_sorted_ascends(kept);
    lemma_sorted_same(kept);
    assert forall|c: CertificateView| #[trigger] list.contains(c) <==> !is_past(s, leader)
        && has_open_path(s, leader, c) && c.header.round + consensus.gc_depth()
        >= s.last_committed_certificate_round by {
        lemma_filter_members(met, recent, c);
        if !is_past(s, leader) {
            if s.reaches(true, leader, c) {
                let chain = lemma_reaches_path(s, true, leader, c);
                assert(has_open_path(s, leader, c));
            }
            if has_open_path(s, leader, c) {
                let chain = choose|chain: Seq<CertificateView>| #[trigger]
                    crate::paths::is_path(s, chain) && crate::paths::is_open(s, chain) && chain[0]
                        == leader && chain.last() == c;
                lemma_path_reaches(s, true, chain);
            }
            assert(met.contains(c) == s.reaches(true, leader, c));
        } else {
            assert(!met.contains(c));
        }
    }
    assert forall|i: int, j: int| 0 <= i < j < list.len() implies (#[trigger] list[i]).header.round
        <= (#[trigger] list[j]).header.round by {
        assert(list[i].round() <= list[j].round());
    }
    assert(met.no_duplicates()) by {
        assert forall|i: int, j: int| 0 <= i < met.len() && 0 <= j < met.len() && i != j implies
            met[i] != met[j] by {
            assert(crate::traversal::digests(met)[i] != crate::traversal::digests(met)[j]);
        }
    }
    lemma_filter_distinct(met, recent);
    broadcast use vstd::seq_lib::group_to_multiset_ensures;
    kept.lemma_multiset_has_no_duplicates();
    list.lemma_multiset_has_no_duplicates_conv();
}

/// Leaving some out of a list without repetition brings none in.
proof fn lemma_filter_distinct<T>(list: Seq<T>, pass: spec_fn(T) -> bool)
    requires
        list.no_duplicates(),
    ensures
        list.filter(pass).no_duplicates(),
    decreases list.len(),
{
    reveal(Seq::filter);
    if list.len() > 0 {
        let rest = list.drop_last();
        let x = list.last();
        assert(rest.no_duplicates());
        lemma_filter_distinct(rest, pass);
        let kept = rest.filter(pass);
        if pass(x) {
            lemma_filter_members(rest, pass, x);
            assert(!rest.contains(x)) by {
                if rest.contains(x) {
                    let i = choose|i: int| 0 <= i < rest.len() && rest[i] == x;
                    assert(list[i] == list[list.len() - 1]);
                }
            }
            let all = kept.push(x);
            assert forall|i: int, j: int| 0 <= i < all.len() && 0 <= j < all.len() && i
                != j implies all[i] != all[j] by {
                if i == kept.len() {
                    assert(kept.contains(kept[j]));
                } else if j == kept.len() {
                    assert(kept.contains(kept[i]));
                }
            }
        }
    }
}

/// What is done with a list of rounds, the first one first: the state after it, and all that is
/// committed, in this order.
pub open spec fn dealt_with(
    consensus: Consensus,
    s: StateView,
    current_round: Round,
    rounds: Seq<Round>,
) -> (StateView, Seq<CertificateView>)
    decreases rounds.len(),
{
    if rounds.len() == 0 {
        (s, seq![])
    } else {
        let (t, list, done) = consensus.slow_step(s, current_round, rounds[0]);
        let rest = dealt_with(consensus, t, current_round, rounds.skip(1));
        (rest.0, list + rest.1)
    }
}

/// Dealing with one more round at the end.
proof fn lemma_dealt_push(
    consensus: Consensus,
    s: StateView,
    current_round: Round,
    rounds: Seq<Round>,
    round: Round,
)
    ensures
        ({
            let before = dealt_with(consensus, s, current_round, rounds);
            let step = consensus.slow_step(before.0, current_round, round);
            dealt_with(consensus, s, current_round, rounds.push(round)) == (
                step.0,
                before.1 + step.1,
            )
        }),
    decreases rounds.len(),
{
    let all = rounds.push(round);
    let first = consensus.slow_step(s, current_round, all[0]);
    if rounds.len() == 0 {
        assert(all.skip(1) =~= seq![]);
        let none = dealt_with(consensus, first.0, current_round, all.skip(1));
        assert(none == (first.0, Seq::<CertificateView>::empty()));
        assert(first.1 + none.1 =~= first.1);
        assert(Seq::<CertificateView>::empty() + first.1 =~= first.1);
    } else {
        assert(all.skip(1) =~= rounds.skip(1).push(round));
        lemma_dealt_push(consensus, first.0, current_round, rounds.skip(1), round);
        let rest = dealt_with(consensus, first.0, current_round, rounds.skip(1));
        let step = consensus.slow_step(rest.0, current_round, round);
        assert(first.1 + (rest.1 + step.1) =~= (first.1 + rest.1) + step.1);
    }
}

/// The slow path deals with the rounds that are left to it one after the other, in increasing order,
/// each in the state that the one before it has left, and gives out all that they commit in that order.
pub proof fn lemma_slow_path_in_order(consensus: Consensus, s: StateView, current_round: Round)
    ensures
        ({
            let (t, list) = consensus.slow_result(s, current_round);
            let dealt = dealt_with(
                consensus,
                s,
                current_round,
                ordered(s.slow_path_pending_rounds),
            );
            &&& list == dealt.1
            &&& t == (StateView {
                slow_path_pending_rounds: t.slow_path_pending_rounds,
                ..dealt.0
            })
        }),
{
    lemma_slow_run_in_order(
        consensus,
        s,
        current_round,
        ordered(s.slow_path_pending_rounds),
    );
}

/// A run of the slow path deals with its rounds in order.
proof fn lemma_slow_run_in_order(
    consensus: Consensus,
    s: StateView,
    current_round: Round,
    rounds: Seq<Round>,
)
    ensures
        ({
            let run = consensus.slow_run(s, current_round, rounds);
            dealt_with(consensus, s, current_round, rounds) == (run.0, run.1)
        }),
    decreases rounds.len(),
{
    if rounds.len() > 0 {
        let rest = rounds.drop_last();
        lemma_slow_run_in_order(consensus, s, current_round, rest);
        assert(rounds =~= rest.push(rounds.last()));
        lemma_dealt_push(consensus, s, current_round, rest, rounds.last());
    }
}

/// What a node starts from: each certificate of the list stands at its place, undecided, unless a later
/// one of the list has taken it; the authors of round zero count as committed there; nothing else is
/// committed or left to the slow path.
pub proof fn lemma_state_starts(list: Seq<CertificateView>)
    ensures
        ({
            let t = StateView::empty().inserted_all(list).started();
            &&& t.last_committed_certificate_round == 0 && t.last_committed_leader_round == 0
            &&& t.slow_path_pending_rounds == Set::<Round>::empty()
            &&& forall|p: DagPosition| #[trigger]
                t.dag.contains_key(p) <==> exists|i: int|
                    0 <= i < list.len() && place(#[trigger] list[i]) == p
            &&& forall|i: int|
                0 <= i < list.len() && (forall|j: int|
                    i < j < list.len() ==> place(#[trigger] list[j]) != place(list[i]))
                    ==> t.dag[place(#[trigger] list[i])].certificate == list[i]
                    && t.dag[place(list[i])].status == CommitStatus::Pending
            &&& forall|a: PublicKey| #[trigger]
                t.last_committed.contains_key(a) <==> t.dag.contains_key(
                    DagPosition { round: 0, author: a },
                )
            &&& forall|a: PublicKey| #[trigger]
                t.last_committed.contains_key(a) ==> t.last_committed[a] == 0
        }),
{
    lemma_inserted_list(list);
    let t = StateView::empty().inserted_all(list).started();
    assert forall|a: PublicKey| #[trigger] t.last_committed.contains_key(a) <==> t.dag.contains_key(
        DagPosition { round: 0, author: a },
    ) by {
        assert(crate::dag::position(0, a) == DagPosition { round: 0, author: a });
    }
}

/// What inserting a list of certificates into nothing gives.
proof fn lemma_inserted_list(list: Seq<CertificateView>)
    ensures
        ({
            let t = StateView::empty().inserted_all(list);
            &&& t.last_committed_certificate_round == 0 && t.last_committed_leader_round == 0
            &&& t.slow_path_pending_rounds == Set::<Round>::empty()
            &&& forall|p: DagPosition| #[trigger]
                t.dag.contains_key(p) <==> exists|i: int|
                    0 <= i < list.len() && place(#[trigger] list[i]) == p
            &&& forall|i: int|
                0 <= i < list.len() && (forall|j: int|
                    i < j < list.len() ==> place(#[trigger] list[j]) != place(list[i]))
                    ==> t.dag[place(#[trigger] list[i])].certificate == list[i]
                    && t.dag[place(list[i])].status == CommitStatus::Pending
        }),
    decreases list.len(),
{
    let t = StateView::empty().inserted_all(list);
    if list.len() > 0 {
        let rest = list.drop_last();
        let c = list.last();
        let n = list.len() - 1;
        lemma_inserted_list(rest);
        let before = StateView::empty().inserted_all(rest);
        assert(t == before.inserted(c));
        assert(list[n] == c);
        assert forall|p: DagPosition| #[trigger] t.dag.contains_key(p) <==> exists|i: int|
            0 <= i < list.len() && place(#[trigger] list[i]) == p by {
            if before.dag.contains_key(p) {
                let i = choose|i: int| 0 <= i < rest.len() && place(#[trigger] rest[i]) == p;
                assert(place(list[i]) == p);
            }
            if p == place(c) {
                assert(place(list[n]) == p);
            }
            if exists|i: int| 0 <= i < list.len() && place(#[trigger] list[i]) == p {
                let i = choose|i: int| 0 <= i < list.len() && place(#[trigger] list[i]) == p;
                if i < n {
                    assert(place(rest[i]) == p);
                }
            }
        }
        assert forall|i: int|
            0 <= i < list.len() && (forall|j: int|
                i < j < list.len() ==> place(#[trigger] list[j]) != place(list[i])) implies t.dag[place(
            #[trigger] list[i],
        )].certificate == list[i] && t.dag[place(list[i])].status == CommitStatus::Pending by {
            if i < n {
                assert(place(list[n]) != place(list[i]));
                assert(rest[i] == list[i]);
                assert forall|j: int| i < j < rest.len() implies place(#[trigger] rest[j]) != place(
                    rest[i],
                ) by {
                    assert(rest[j] == list[j]);
                }
            }
        }
    }
}

/// What is sent for commits: for each in turn two deliveries, the first to the primary and the second
/// to the application.
pub proof fn lemma_sent_in_pairs(commits: Seq<CertificateView>, k: int)
    requires
        0 <= k < commits.len(),
    ensures
        emitted(commits).len() == 2 * commits.len(),
        emitted(commits)[2 * k] == (Destination::Primary, commits[k]),
        emitted(commits)[2 * k + 1] == (Destination::Application, commits[k]),
{
}

/// A member has the number of its place in increasing order, and nobody else has one.
pub proof fn lemma_node_numbers(committee: &Committee, name: PublicKey)
    requires
        committee.authorities@.dom().finite(),
        committee.authorities@.dom().len() <= usize::MAX,
    ensures
        match committee.node_of(name) {
            Some(node) => node < ordered(committee.authorities@.dom()).len() && ordered(
                committee.authorities@.dom(),
            )[node as int] == name,
            None => !committee.authorities@.contains_key(name),
        },
{
    let members = ordered(committee.authorities@.dom());
    lemma_ordered_finite(committee.authorities@.dom());
    lemma_sorted_distinct(members);
    members.unique_seq_to_set();
    if committee.authorities@.contains_key(name) {
        assert(members.contains(name));
        assert(0 <= members.index_of(name) < members.len());
        assert(members.len() == committee.authorities@.dom().len());
    }
}

/// Setting a status changes it where a certificate stands, and nothing else.
pub proof fn lemma_set_status(s: StateView, p: DagPosition, status: CommitStatus)
    ensures
        ({
            let t = s.with_status(p, status);
            &&& t == (StateView { dag: t.dag, ..s })
            &&& t.dag.dom() == s.dag.dom()
            &&& s.dag.contains_key(p) ==> t.dag[p].status == status && t.dag[p].certificate
                == s.dag[p].certificate && t.dag[p].digest == s.dag[p].digest
            &&& forall|q: DagPosition|
                q != p && #[trigger] s.dag.contains_key(q) ==> t.dag[q] == s.dag[q]
        }),
{
    assert(s.with_status(p, status).dag.dom() =~= s.dag.dom());
}

} // verus!
