//! What the commit rules decide, told by the certificates of the DAG and the stake of their authors.
use vstd::prelude::*;

use crate::committee::Round;
use crate::consensus::Consensus;
use crate::crypto::PublicKey;
use crate::dag::{CommitStatus, DagPosition, StateView};
use crate::keys::{lemma_ordered_finite, lemma_sorted_distinct, ordered, Key};
use crate::messages::CertificateView;
use crate::paths::{
    comes_to, has_open_path, is_child, is_open, is_past, is_path, lemma_commit_by_path,
    lemma_comes_join, lemma_linked_by_path, lemma_path_descends, place, stands, takes_in, to_commit,
};
use crate::safety::{
    lemma_authors_finite, lemma_commit_round_indexed, lemma_decided, lemma_decided_indexed,
    lemma_fast_path, lemma_inserted_sound, lemma_slow_run, lemma_slow_run_indexed,
    lemma_slow_run_pending,
};
use crate::stakes::{lemma_total_split, lemma_weight_total, total_stake};

verus! {

/// The place of an author in a round.
pub open spec fn at(round: Round, author: PublicKey) -> DagPosition {
    DagPosition { round, author }
}

/// The authors with a certificate in a round.
pub open spec fn present(s: StateView, round: Round) -> Set<PublicKey> {
    Set::new(|a: PublicKey| s.dag.contains_key(at(round, a)))
}

/// The authors whose certificate of a round carries a certificate, by its header id or by its digest,
/// among its solid-step vertices.
pub open spec fn backers(s: StateView, round: Round, c: CertificateView) -> Set<PublicKey> {
    Set::new(
        |a: PublicKey|
            {
                let vertices = s.dag[at(round, a)].certificate.header.solid_step_vertices;
                s.dag.contains_key(at(round, a)) && (vertices.contains(c.header.id)
                    || vertices.contains(c.digest()))
            },
    )
}

/// The stake of the authors whose certificates of a round carry a certificate.
pub open spec fn stake_for(
    consensus: &Consensus,
    s: StateView,
    round: Round,
    c: CertificateView,
) -> nat {
    total_stake(&consensus.committee(), backers(s, round, c))
}

/// The stake of the authors whose certificates of a round do not carry a certificate.
pub open spec fn stake_against(
    consensus: &Consensus,
    s: StateView,
    round: Round,
    c: CertificateView,
) -> nat {
    total_stake(&consensus.committee(), present(s, round).difference(backers(s, round, c)))
}

/// The authors whose certificates of round `round - 1` have a quorum for them in `round`.
pub open spec fn carried(consensus: &Consensus, s: StateView, round: Round) -> Set<PublicKey> {
    let r = (round - 1) as Round;
    Set::new(
        |a: PublicKey|
            s.dag.contains_key(at(r, a)) && stake_for(
                consensus,
                s,
                round,
                s.dag[at(r, a)].certificate,
            ) >= consensus.committee().quorum_threshold,
    )
}

/// A certificate of round `round - 1` has neither a quorum for it nor a quorum against it in `round`.
pub open spec fn is_doubtful(consensus: &Consensus, s: StateView, round: Round, a: PublicKey) -> bool {
    let c = s.dag[at((round - 1) as Round, a)].certificate;
    &&& s.dag.contains_key(at((round - 1) as Round, a))
    &&& stake_for(consensus, s, round, c) < consensus.committee().quorum_threshold
    &&& stake_against(consensus, s, round, c) < consensus.committee().quorum_threshold
}

/// The round and the one before it have certificates, nothing of the round is committed yet, and from
/// the second round on a quorum is there.
pub open spec fn is_due(consensus: &Consensus, s: StateView, round: Round) -> bool {
    &&& 0 < round
    &&& s.last_committed_certificate_round < round
    &&& exists|a: PublicKey| #[trigger] s.dag.contains_key(at(round, a))
    &&& exists|a: PublicKey| #[trigger] s.dag.contains_key(at((round - 1) as Round, a))
    &&& round > 1 ==> total_stake(&consensus.committee(), present(s, round))
        >= consensus.committee().quorum_threshold
}

/// The sums over lists of names that the rules use are the stakes of the sets.
proof fn lemma_stakes(consensus: Consensus, s: StateView, round: Round, c: CertificateView)
    requires
        s.dag.dom().finite(),
    ensures
        present(s, round).finite(),
        consensus.round_weight(s, round) == total_stake(&consensus.committee(), present(s, round)),
        consensus.support_weight(s, round, c) == stake_for(&consensus, s, round, c),
        consensus.round_weight(s, round) - consensus.support_weight(s, round, c) == stake_against(
            &consensus,
            s,
            round,
            c,
        ),
{
    let committee = consensus.committee();
    let names = ordered(s.authors(round));
    lemma_authors_finite(s, round);
    lemma_ordered_finite(s.authors(round));
    lemma_sorted_distinct(names);
    assert(present(s, round) =~= s.authors(round));
    lemma_weight_total(&committee, names, |a: PublicKey| true, present(s, round));
    let counts = |a: PublicKey| crate::consensus::supports(s.certificate_at(round, a), c);
    assert forall|a: PublicKey| #[trigger] backers(s, round, c).contains(a) == (names.contains(a)
        && counts(a)) by {}
    lemma_weight_total(&committee, names, counts, backers(s, round, c));
    lemma_total_split(&committee, backers(s, round, c), present(s, round));
}

/// Whether the fast path looks at a round.
proof fn lemma_due(consensus: Consensus, s: StateView, round: Round)
    requires
        s.dag.dom().finite(),
    ensures
        is_due(&consensus, s, round) == consensus.fast_path_applies(s, round),
{
    if round > 0 {
        let r = (round - 1) as Round;
        lemma_stakes(consensus, s, round, arbitrary());
        lemma_authors_finite(s, round);
        lemma_authors_finite(s, r);
        if s.authors(round).len() > 0 {
            let a = s.authors(round).choose();
            assert(s.authors(round).contains(a));
            assert(s.dag.contains_key(at(round, a)));
        }
        if s.authors(r).len() > 0 {
            let a = s.authors(r).choose();
            assert(s.authors(r).contains(a));
            assert(s.dag.contains_key(at(r, a)));
        }
        if exists|a: PublicKey| #[trigger] s.dag.contains_key(at(round, a)) {
            let a = choose|a: PublicKey| #[trigger] s.dag.contains_key(at(round, a));
            assert(s.authors(round).contains(a));
        }
        if exists|a: PublicKey| #[trigger] s.dag.contains_key(at(r, a)) {
            let a = choose|a: PublicKey| #[trigger] s.dag.contains_key(at(r, a));
            assert(s.authors(r).contains(a));
        }
    }
}

/// Two states that differ only in the statuses of a round.
spec fn same_but_status(s: StateView, t: StateView, round: Round) -> bool {
    &&& t == (StateView { dag: t.dag, ..s })
    &&& t.dag.dom() == s.dag.dom()
    &&& forall|p: DagPosition| #[trigger]
        s.dag.contains_key(p) ==> t.dag[p].certificate == s.dag[p].certificate && t.dag[p].digest
            == s.dag[p].digest && (p.round != round ==> t.dag[p] == s.dag[p])
}

/// The statuses of a round do not matter to open paths down from it.
proof fn lemma_same_paths(
    s: StateView,
    t: StateView,
    round: Round,
    d: CertificateView,
    c: CertificateView,
)
    requires
        same_but_status(s, t, round),
        d.header.round == round,
        has_open_path(s, d, c),
    ensures
        has_open_path(t, d, c),
{
    let chain = choose|chain: Seq<CertificateView>| #[trigger]
        is_path(s, chain) && is_open(s, chain) && chain[0] == d && chain.last() == c;
    assert forall|i: int| 0 < i < chain.len() implies is_child(t, chain[i - 1], #[trigger] chain[i])
        && t.dag[place(chain[i])].status != CommitStatus::ZeroValent && !is_past(t, chain[i]) by {
        assert(is_child(s, chain[i - 1], chain[i]));
        lemma_path_descends(s, chain, i);
        assert(s.dag.contains_key(place(chain[i])));
    }
    assert(is_path(t, chain) && is_open(t, chain));
}

/// The statuses of a round do not matter to what is to be committed with its certificates.
proof fn lemma_same_commits(
    s: StateView,
    t: StateView,
    gc_depth: Round,
    round: Round,
    chosen: Set<PublicKey>,
    c: CertificateView,
)
    requires
        same_but_status(s, t, round),
        to_commit(s, gc_depth, round, chosen, c),
    ensures
        to_commit(t, gc_depth, round, chosen, c),
{
    let d = choose|d: CertificateView| #[trigger]
        has_open_path(s, d, c) && stands(s, d) && !is_past(s, d) && d.header.round == round
            && chosen.contains(d.header.author);
    lemma_same_paths(s, t, round, d, c);
    assert(s.dag.contains_key(place(d)));
    assert(stands(t, d) && !is_past(t, d));
}

/// Committing with certificates of a round does not go beyond it, so that the round stays in the DAG.
proof fn lemma_round_stays(
    s: StateView,
    t: StateView,
    gc_depth: Round,
    round: Round,
    chosen: Set<PublicKey>,
    list: Seq<CertificateView>,
)
    requires
        s.well_formed(),
        s.last_committed_certificate_round <= round,
        takes_in(s, t, gc_depth, list),
        forall|c: CertificateView| #[trigger]
            list.contains(c) <==> to_commit(s, gc_depth, round, chosen, c),
    ensures
        t.last_committed_certificate_round <= round,
        forall|p: DagPosition| #[trigger]
            s.dag.contains_key(p) && p.round >= round ==> t.dag.contains_key(p),
{
    assert forall|i: int| 0 <= i < list.len() implies (#[trigger] list[i]).header.round <= round by {
        let c = list[i];
        assert(list.contains(c));
        let d = choose|d: CertificateView| #[trigger]
            has_open_path(s, d, c) && stands(s, d) && !is_past(s, d) && d.header.round == round
                && chosen.contains(d.header.author);
        let chain = choose|chain: Seq<CertificateView>| #[trigger]
            is_path(s, chain) && is_open(s, chain) && chain[0] == d && chain.last() == c;
        lemma_path_descends(s, chain, chain.len() - 1);
    }
    assert forall|p: DagPosition| #[trigger]
        s.dag.contains_key(p) && p.round >= round implies t.dag.contains_key(p) by {
        let a = p.author;
        if t.last_committed.contains_key(a) {
            assert(t.last_committed[a] <= round);
        }
    }
}

/// What the fast path does with the round before `round`. Where the round is due, each certificate of
/// the round before is accepted if those that carry it have a quorum, rejected if the others have one,
/// and left in doubt otherwise, whatever else the round holds. Where one is in doubt, the round before
/// is left to the slow path and nothing is committed; otherwise exactly what is to be committed with
/// the accepted ones is. Where the round is not due, nothing happens.
pub proof fn lemma_fast_path_decides(consensus: Consensus, s: StateView, round: Round)
    requires
        s.is_sound(),
        s.is_indexed(),
    ensures
        ({
            let (t, list) = consensus.fast_result(s, round);
            let r = (round - 1) as Round;
            let quorum = consensus.committee().quorum_threshold;
            let doubt = exists|a: PublicKey| #[trigger] is_doubtful(&consensus, s, round, a);
            if !is_due(&consensus, s, round) {
                t == s && list.len() == 0
            } else {
                &&& forall|a: PublicKey| #[trigger]
                    s.dag.contains_key(at(r, a)) ==> ({
                        let c = s.dag[at(r, a)].certificate;
                        let status = t.dag[at(r, a)].status;
                        &&& t.dag.contains_key(at(r, a))
                        &&& t.dag[at(r, a)].certificate == c
                        &&& stake_for(&consensus, s, round, c) >= quorum ==> status
                            == CommitStatus::OneValent
                        &&& stake_for(&consensus, s, round, c) < quorum <= stake_against(
                            &consensus,
                            s,
                            round,
                            c,
                        ) ==> status == CommitStatus::ZeroValent
                        &&& is_doubtful(&consensus, s, round, a) ==> status
                            == CommitStatus::Bivalent
                    })
                &&& forall|p: DagPosition| #[trigger]
                    t.dag.contains_key(p) ==> s.dag.contains_key(p) && (p.round != r ==> t.dag[p]
                        == s.dag[p])
                &&& doubt ==> list.len() == 0 && t == (StateView {
                    dag: t.dag,
                    slow_path_pending_rounds: s.slow_path_pending_rounds.insert(r),
                    ..s
                }) && t.dag.dom() == s.dag.dom()
                &&& !doubt ==> {
                    &&& forall|a: PublicKey| #[trigger]
                        carried(&consensus, s, round).contains(a) && !is_past(
                            s,
                            s.dag[at(r, a)].certificate,
                        ) ==> list.contains(s.dag[at(r, a)].certificate)
                    &&& forall|c: CertificateView| #[trigger]
                        list.contains(c) <==> to_commit(
                            s,
                            consensus.gc_depth(),
                            r,
                            carried(&consensus, s, round),
                            c,
                        )
                    &&& forall|i: int, j: int|
                        0 <= i < j < list.len() ==> (#[trigger] list[i]).header.round <= (
                        #[trigger] list[j]).header.round && place(list[i]) != place(list[j])
                    &&& takes_in(s, t, consensus.gc_depth(), list)
                    &&& t.slow_path_pending_rounds == s.slow_path_pending_rounds
                }
            }
        }),
{
    lemma_due(consensus, s, round);
    if is_due(&consensus, s, round) {
        let r = (round - 1) as Round;
        let status = |c: CertificateView| consensus.fast_status(s, round, c);
        let u = s.decided(r, status);
        let (t, list) = consensus.fast_result(s, round);
        let chosen = carried(&consensus, s, round);
        let gc = consensus.gc_depth();
        lemma_decided(s, r, status);
        lemma_decided_indexed(s, r, status);
        assert(u.dag.dom() =~= s.dag.dom());
        assert(same_but_status(s, u, r));
        assert(same_but_status(u, s, r));
        assert forall|a: PublicKey| #[trigger] s.dag.contains_key(at(r, a)) implies ({
            let c = s.dag[at(r, a)].certificate;
            let quorum = consensus.committee().quorum_threshold;
            &&& u.dag.contains_key(at(r, a))
            &&& (u.dag[at(r, a)].status == CommitStatus::OneValent) == (stake_for(
                &consensus,
                s,
                round,
                c,
            ) >= quorum)
            &&& (u.dag[at(r, a)].status == CommitStatus::ZeroValent) == (stake_for(
                &consensus,
                s,
                round,
                c,
            ) < quorum <= stake_against(&consensus, s, round, c))
            &&& (u.dag[at(r, a)].status == CommitStatus::Bivalent) == is_doubtful(
                &consensus,
                s,
                round,
                a,
            )
        }) by {
            lemma_stakes(consensus, s, round, s.dag[at(r, a)].certificate);
        }
        assert(consensus.all_decided(s, round) == !(exists|a: PublicKey| #[trigger]
            is_doubtful(&consensus, s, round, a))) by {
            if consensus.all_decided(s, round) {
                assert forall|a: PublicKey| !#[trigger] is_doubtful(&consensus, s, round, a) by {
                    if is_doubtful(&consensus, s, round, a) {
                        assert(s.dag.contains_key(at(r, a)));
                        assert(s.authors(r).contains(a));
                    }
                }
            } else {
                let a = choose|a: PublicKey| #[trigger]
                    s.authors(r).contains(a) && consensus.fast_status(
                        s,
                        round,
                        s.certificate_at(r, a),
                    ) == CommitStatus::Bivalent;
                assert(s.dag.contains_key(at(r, a)));
                assert(is_doubtful(&consensus, s, round, a));
            }
        }
        if consensus.all_decided(s, round) {
            assert forall|a: PublicKey| #[trigger]
                chosen.contains(a) <==> u.dag.contains_key(DagPosition { round: r, author: a })
                    && u.dag[DagPosition { round: r, author: a }].status
                    == CommitStatus::OneValent by {
                assert(at(r, a) == DagPosition { round: r, author: a });
            }
            lemma_commit_by_path(consensus, u, r, chosen);
            lemma_round_stays(u, t, gc, r, chosen, list);
            assert forall|c: CertificateView| #[trigger]
                list.contains(c) <==> to_commit(s, gc, r, chosen, c) by {
                if to_commit(s, gc, r, chosen, c) {
                    lemma_same_commits(s, u, gc, r, chosen, c);
                }
                if to_commit(u, gc, r, chosen, c) {
                    lemma_same_commits(u, s, gc, r, chosen, c);
                }
            }
            lemma_takes_in_same(u, s, t, r, gc, list);
            assert forall|a: PublicKey| #[trigger] chosen.contains(a) && !is_past(
                s,
                s.dag[at(r, a)].certificate,
            ) implies list.contains(s.dag[at(r, a)].certificate) by {
                let c = s.dag[at(r, a)].certificate;
                assert(s.dag.contains_key(at(r, a)));
                assert(place(c) == at(r, a));
                assert(is_path(s, seq![c]) && is_open(s, seq![c]));
                assert(has_open_path(s, c, c));
            }
        }
    }
}

/// What is taken in does not depend on the statuses.
proof fn lemma_takes_in_same(
    u: StateView,
    s: StateView,
    t: StateView,
    round: Round,
    gc_depth: Round,
    list: Seq<CertificateView>,
)
    requires
        same_but_status(u, s, round),
        takes_in(u, t, gc_depth, list),
    ensures
        takes_in(s, t, gc_depth, list),
{
    assert forall|p: DagPosition| u.dag.contains_key(p) == #[trigger] s.dag.contains_key(p) by {
        assert(u.dag.dom().contains(p) == s.dag.dom().contains(p));
    }
    assert forall|d: crate::crypto::Digest| #[trigger]
        crate::paths::is_left(u, t, d) == crate::paths::is_left(s, t, d) by {
        if crate::paths::is_left(u, t, d) {
            let p = choose|p: DagPosition| #[trigger]
                u.dag.contains_key(p) && !t.dag.contains_key(p) && (u.dag[p].certificate.digest()
                    == d || u.dag[p].certificate.header.id == d);
            assert(s.dag.contains_key(p));
        }
        if crate::paths::is_left(s, t, d) {
            let p = choose|p: DagPosition| #[trigger]
                s.dag.contains_key(p) && !t.dag.contains_key(p) && (s.dag[p].certificate.digest()
                    == d || s.dag[p].certificate.header.id == d);
            assert(u.dag.contains_key(p));
        }
    }
}

/// The round whose leader decides what the fast path has left open in a round: two solid steps later.
pub open spec fn two_steps_on(consensus: &Consensus, round: Round) -> int {
    if consensus.committee().solid_step_length == 0 {
        round + 2
    } else {
        round + 2 * consensus.committee().solid_step_length
    }
}

/// The member whose turn it is to lead a round.
pub open spec fn turn(consensus: &Consensus, round: int) -> PublicKey {
    let members = ordered(consensus.committee().authorities@.dom());
    members[round % (members.len() as int)]
}

/// The slow path can decide of a round: two solid steps later its leader has a certificate, and a
/// quorum has certificates in the next round.
pub open spec fn is_decidable(
    consensus: &Consensus,
    s: StateView,
    current_round: Round,
    round: Round,
) -> bool {
    let later = two_steps_on(consensus, round);
    let next = (round + 1) as Round;
    &&& later <= current_round
    &&& s.dag.contains_key(at(later as Round, turn(consensus, later)))
    &&& exists|a: PublicKey| #[trigger] s.dag.contains_key(at(next, a))
    &&& total_stake(&consensus.committee(), present(s, next))
        >= consensus.committee().quorum_threshold
}

/// The authors whose certificate of the next round carries a certificate of a round, and leads down a
/// path to the leader that decides.
pub open spec fn connected(
    consensus: &Consensus,
    s: StateView,
    round: Round,
    c: CertificateView,
) -> Set<PublicKey> {
    let next = (round + 1) as Round;
    let later = two_steps_on(consensus, round);
    let leader = s.dag[at(later as Round, turn(consensus, later))].certificate;
    Set::new(
        |a: PublicKey|
            backers(s, next, c).contains(a) && leads_to(s, s.dag[at(next, a)].certificate, leader),
    )
}

/// A path leads from a certificate down to one with the digest of another.
pub open spec fn leads_to(s: StateView, from: CertificateView, to: CertificateView) -> bool {
    exists|chain: Seq<CertificateView>| #[trigger]
        is_path(s, chain) && chain[0] == from && chain.last().digest() == to.digest()
}

/// The slow path accepts a certificate of a round: the fast path had accepted it, or it had left it
/// open and enough stake is connected to the leader.
pub open spec fn is_accepted(consensus: &Consensus, s: StateView, round: Round, a: PublicKey) -> bool {
    let entry = s.dag[at(round, a)];
    &&& s.dag.contains_key(at(round, a))
    &&& entry.status == CommitStatus::OneValent || (entry.status != CommitStatus::ZeroValent
        && total_stake(&consensus.committee(), connected(consensus, s, round, entry.certificate))
        >= consensus.committee().validity_threshold)
}

/// The sum over the connected certificates is the stake of the set.
proof fn lemma_connected(consensus: Consensus, s: StateView, round: Round, c: CertificateView)
    requires
        s.is_sound(),
        s.is_indexed(),
        round < Round::MAX,
        two_steps_on(&consensus, round) <= Round::MAX,
    ensures
        ({
            let later = two_steps_on(&consensus, round);
            let leader = s.dag[at(later as Round, turn(&consensus, later))].certificate;
            consensus.connected_weight(s, (round + 1) as Round, c, leader) == total_stake(
                &consensus.committee(),
                connected(&consensus, s, round, c),
            )
        }),
{
    let later = two_steps_on(&consensus, round);
    let leader = s.dag[at(later as Round, turn(&consensus, later))].certificate;
    let next = (round + 1) as Round;
    let names = ordered(s.authors(next));
    let set = connected(&consensus, s, round, c);
    lemma_authors_finite(s, next);
    lemma_ordered_finite(s.authors(next));
    lemma_sorted_distinct(names);
    let counts = |a: PublicKey|
        crate::consensus::supports(s.certificate_at(next, a), c) && s.links(
            s.certificate_at(next, a),
            leader,
        );
    assert forall|a: PublicKey| #[trigger] set.contains(a) == (names.contains(a) && counts(a)) by {
        assert(names.contains(a) == s.authors(next).contains(a));
        if s.dag.contains_key(at(next, a)) {
            let x = s.dag[at(next, a)].certificate;
            assert(x == s.certificate_at(next, a));
            assert(s.certificate_index.contains_key(s.dag[at(next, a)].digest));
            assert(s.is_unmistaken(x));
            lemma_linked_by_path(s, x, leader);
            assert(s.links(x, leader) == leads_to(s, x, leader));
        }
    }
    lemma_weight_total(&consensus.committee(), names, counts, set);
}

/// What the slow path does with one round. A round that is committed is dealt with. One that cannot be
/// decided yet stays as it is. Otherwise each certificate that was left open is accepted if the stake
/// connected to the leader suffices and rejected if not, what was decided stands, and exactly what is
/// to be committed with the accepted ones is.
pub proof fn lemma_slow_step_decides(
    consensus: Consensus,
    s: StateView,
    current_round: Round,
    round: Round,
)
    requires
        s.is_sound(),
        s.is_indexed(),
    ensures
        ({
            let (t, list, done) = consensus.slow_step(s, current_round, round);
            let accepted = Set::new(|a: PublicKey| is_accepted(&consensus, s, round, a));
            if round == 0 || round <= s.last_committed_certificate_round {
                t == s && list.len() == 0 && done
            } else if !is_decidable(&consensus, s, current_round, round) {
                t == s && list.len() == 0 && !done
            } else {
                &&& done
                &&& forall|a: PublicKey| #[trigger]
                    s.dag.contains_key(at(round, a)) ==> t.dag.contains_key(at(round, a))
                        && t.dag[at(round, a)].certificate == s.dag[at(round, a)].certificate
                        && t.dag[at(round, a)].status == if is_accepted(&consensus, s, round, a) {
                        CommitStatus::OneValent
                    } else {
                        CommitStatus::ZeroValent
                    }
                &&& forall|p: DagPosition| #[trigger]
                    t.dag.contains_key(p) ==> s.dag.contains_key(p) && (p.round != round
                        ==> t.dag[p] == s.dag[p])
                &&& forall|c: CertificateView| #[trigger]
                    list.contains(c) ==> to_commit(s, consensus.gc_depth(), round, accepted, c)
                &&& present(s, round).len() > 0 ==> {
                    &&& forall|c: CertificateView| #[trigger]
                        to_commit(s, consensus.gc_depth(), round, accepted, c) ==> list.contains(c)
                    &&& takes_in(s, t, consensus.gc_depth(), list)
                }
                &&& present(s, round).len() == 0 ==> t == s && list.len() == 0
                &&& forall|i: int, j: int|
                    0 <= i < j < list.len() ==> (#[trigger] list[i]).header.round <= (
                    #[trigger] list[j]).header.round && place(list[i]) != place(list[j])
                &&& t.slow_path_pending_rounds == s.slow_path_pending_rounds
                &&& t.last_committed_certificate_round <= round
                &&& forall|p: DagPosition| #[trigger]
                    s.dag.contains_key(p) && p.round >= round ==> t.dag.contains_key(p)
            }
        }),
{
    let (t, list, done) = consensus.slow_step(s, current_round, round);
    let accepted = Set::new(|a: PublicKey| is_accepted(&consensus, s, round, a));
    let later = two_steps_on(&consensus, round);
    let next = (round + 1) as Round;
    assert(consensus.deciding_round(round) == later);
    if later <= current_round {
        lemma_stakes(consensus, s, next, arbitrary());
        lemma_authors_finite(s, next);
        lemma_authors_finite(s, round);
        assert(present(s, next) =~= s.authors(next));
        assert(present(s, round) =~= s.authors(round));
        if s.authors(next).len() > 0 {
            let a = s.authors(next).choose();
            assert(s.authors(next).contains(a));
            assert(s.dag.contains_key(at(next, a)));
        }
        if exists|a: PublicKey| #[trigger] s.dag.contains_key(at(next, a)) {
            let a = choose|a: PublicKey| #[trigger] s.dag.contains_key(at(next, a));
            assert(s.authors(next).contains(a));
        }
        assert(turn(&consensus, later) == consensus.leader_name(later as Round));
        assert(is_decidable(&consensus, s, current_round, round) == consensus.is_ripe(
            s,
            current_round,
            round,
        ));
        if round > s.last_committed_certificate_round && is_decidable(
            &consensus,
            s,
            current_round,
            round,
        ) {
            assert forall|a: PublicKey| #[trigger] s.dag.contains_key(at(round, a)) implies s.authors(
                round,
            ).contains(a) by {}
            if s.authors(round).len() > 0 {
                let leader = s.dag[at(later as Round, turn(&consensus, later))].certificate;
                let status = |c: CertificateView| consensus.slow_status(s, round, leader, c);
                let u = s.decided(round, status);
                let gc = consensus.gc_depth();
                lemma_decided(s, round, status);
                lemma_decided_indexed(s, round, status);
                assert(u.dag.dom() =~= s.dag.dom());
                assert(same_but_status(s, u, round));
                assert(same_but_status(u, s, round));
                assert forall|a: PublicKey| #[trigger] s.dag.contains_key(at(round, a)) implies
                    u.dag.contains_key(at(round, a)) && u.dag[at(round, a)].status
                    == if is_accepted(&consensus, s, round, a) {
                    CommitStatus::OneValent
                } else {
                    CommitStatus::ZeroValent
                } by {
                    let c = s.dag[at(round, a)].certificate;
                    assert(c.position() == at(round, a));
                    lemma_connected(consensus, s, round, c);
                }
                assert forall|a: PublicKey| #[trigger]
                    accepted.contains(a) <==> u.dag.contains_key(DagPosition { round, author: a })
                        && u.dag[DagPosition { round, author: a }].status
                        == CommitStatus::OneValent by {
                    assert(at(round, a) == DagPosition { round, author: a });
                }
                lemma_commit_by_path(consensus, u, round, accepted);
                lemma_round_stays(u, t, gc, round, accepted, list);
                assert forall|c: CertificateView| #[trigger]
                    list.contains(c) <==> to_commit(s, gc, round, accepted, c) by {
                    if to_commit(s, gc, round, accepted, c) {
                        lemma_same_commits(s, u, gc, round, accepted, c);
                    }
                    if to_commit(u, gc, round, accepted, c) {
                        lemma_same_commits(u, s, gc, round, accepted, c);
                    }
                }
                lemma_takes_in_same(u, s, t, round, gc, list);
            }
        }
    }
}

/// Rounds that come one after the other.
spec fn ascends(rounds: Seq<Round>) -> bool {
    forall|i: int, j: int| 0 <= i < j < rounds.len() ==> #[trigger] rounds[i] < #[trigger] rounds[j]
}

/// From a round on, two states have the same certificates with the same statuses.
spec fn same_from(s: StateView, t: StateView, round: Round) -> bool {
    forall|p: DagPosition|
        p.round >= round ==> #[trigger] t.dag.contains_key(p) == s.dag.contains_key(p) && (
        s.dag.contains_key(p) ==> t.dag[p] == s.dag[p])
}

/// Dealing with rounds before `round` leaves the DAG from `round` on as it is.
proof fn lemma_slow_before(
    consensus: Consensus,
    s: StateView,
    current_round: Round,
    rounds: Seq<Round>,
    round: Round,
)
    requires
        s.is_sound(),
        s.is_indexed(),
        s.last_committed_certificate_round < round,
        forall|i: int| 0 <= i < rounds.len() ==> #[trigger] rounds[i] < round,
    ensures
        ({
            let (t, list, done) = consensus.slow_run(s, current_round, rounds);
            &&& t.is_sound()
            &&& t.is_indexed()
            &&& t.last_committed_certificate_round < round
            &&& same_from(s, t, round)
            &&& !done.contains(round)
        }),
    decreases rounds.len(),
{
    if rounds.len() > 0 {
        let rest = rounds.drop_last();
        let q = rounds.last();
        assert(rounds[rounds.len() - 1] == q);
        assert forall|i: int| 0 <= i < rest.len() implies #[trigger] rest[i] < round by {
            assert(rest[i] == rounds[i]);
        }
        lemma_slow_before(consensus, s, current_round, rest, round);
        lemma_slow_run(consensus, s, current_round, rounds);
        lemma_slow_run_indexed(consensus, s, current_round, rounds);
        let u = consensus.slow_run(s, current_round, rest).0;
        let t = consensus.slow_run(s, current_round, rounds).0;
        lemma_slow_step_decides(consensus, u, current_round, q);
        assert(t == consensus.slow_step(u, current_round, q).0);
        assert forall|p: DagPosition| p.round >= round implies #[trigger] t.dag.contains_key(p)
            == s.dag.contains_key(p) && (s.dag.contains_key(p) ==> t.dag[p] == s.dag[p]) by {
            assert(u.dag.contains_key(p) == s.dag.contains_key(p));
        }
    }
}

/// Before the deciding round of a round has come, dealing with whatever rounds leaves the DAG from the
/// round on as it is, and the round is not dealt with.
proof fn lemma_slow_early(
    consensus: Consensus,
    s: StateView,
    current_round: Round,
    rounds: Seq<Round>,
    round: Round,
)
    requires
        s.is_sound(),
        s.is_indexed(),
        s.last_committed_certificate_round < round,
        current_round < two_steps_on(&consensus, round),
    ensures
        ({
            let (t, list, done) = consensus.slow_run(s, current_round, rounds);
            &&& t.is_sound()
            &&& t.is_indexed()
            &&& t.last_committed_certificate_round < round
            &&& same_from(s, t, round)
            &&& !done.contains(round)
        }),
    decreases rounds.len(),
{
    if rounds.len() > 0 {
        let rest = rounds.drop_last();
        let q = rounds.last();
        lemma_slow_early(consensus, s, current_round, rest, round);
        lemma_slow_run(consensus, s, current_round, rounds);
        lemma_slow_run_indexed(consensus, s, current_round, rounds);
        let u = consensus.slow_run(s, current_round, rest).0;
        let t = consensus.slow_run(s, current_round, rounds).0;
        lemma_slow_step_decides(consensus, u, current_round, q);
        assert(t == consensus.slow_step(u, current_round, q).0);
        if q >= round {
            assert(two_steps_on(&consensus, q) >= two_steps_on(&consensus, round));
            assert(!is_decidable(&consensus, u, current_round, q));
        }
        assert forall|p: DagPosition| p.round >= round implies #[trigger] t.dag.contains_key(p)
            == s.dag.contains_key(p) && (s.dag.contains_key(p) ==> t.dag[p] == s.dag[p]) by {
            assert(u.dag.contains_key(p) == s.dag.contains_key(p));
        }
    }
}

/// Two states that agree from a round on can decide of the same of these rounds.
proof fn lemma_same_decidable(
    consensus: Consensus,
    s: StateView,
    t: StateView,
    current_round: Round,
    round: Round,
)
    requires
        same_from(s, t, round),
        round < Round::MAX,
    ensures
        is_decidable(&consensus, s, current_round, round) == is_decidable(
            &consensus,
            t,
            current_round,
            round,
        ),
{
    let next = (round + 1) as Round;
    assert forall|a: PublicKey| s.dag.contains_key(at(next, a)) == #[trigger] t.dag.contains_key(
        at(next, a),
    ) by {
        assert(at(next, a).round >= round);
    }
    assert(present(s, next) =~= present(t, next));
    if exists|a: PublicKey| #[trigger] s.dag.contains_key(at(next, a)) {
        let a = choose|a: PublicKey| #[trigger] s.dag.contains_key(at(next, a));
        assert(t.dag.contains_key(at(next, a)));
    }
    if exists|a: PublicKey| #[trigger] t.dag.contains_key(at(next, a)) {
        let a = choose|a: PublicKey| #[trigger] t.dag.contains_key(at(next, a));
        assert(s.dag.contains_key(at(next, a)));
    }
    let later = two_steps_on(&consensus, round);
    if later <= current_round {
        assert(at(later as Round, turn(&consensus, later)).round >= round);
        assert(t.dag.contains_key(at(later as Round, turn(&consensus, later))) == s.dag.contains_key(
            at(later as Round, turn(&consensus, later)),
        ));
    }
}

/// When its turn comes, a round is dealt with exactly if it can be decided, and then no certificate of
/// it is left open.
proof fn lemma_slow_turn(
    consensus: Consensus,
    s: StateView,
    current_round: Round,
    rounds: Seq<Round>,
    round: Round,
)
    requires
        s.is_sound(),
        s.is_indexed(),
        s.last_committed_certificate_round < round < Round::MAX,
        ascends(rounds),
        rounds.contains(round),
    ensures
        ({
            let (t, list, done) = consensus.slow_run(s, current_round, rounds);
            &&& t.is_sound()
            &&& t.is_indexed()
            &&& done.contains(round) == is_decidable(&consensus, s, current_round, round)
            &&& forall|a: PublicKey| #[trigger]
                t.dag.contains_key(at(round, a)) ==> s.dag.contains_key(at(round, a)) && ({
                    let old_status = s.dag[at(round, a)].status;
                    let status = t.dag[at(round, a)].status;
                    &&& t.dag[at(round, a)].certificate == s.dag[at(round, a)].certificate
                    &&& old_status == CommitStatus::OneValent || old_status
                        == CommitStatus::ZeroValent ==> status == old_status
                    &&& done.contains(round) ==> status == CommitStatus::OneValent || status
                        == CommitStatus::ZeroValent
                    &&& !done.contains(round) ==> status == old_status
                })
        }),
    decreases rounds.len(),
{
    let rest = rounds.drop_last();
    let q = rounds.last();
    let n = rounds.len() - 1;
    assert(rounds[n] == q);
    assert forall|i: int, j: int| 0 <= i < j < rest.len() implies #[trigger] rest[i]
        < #[trigger] rest[j] by {
        assert(rest[i] == rounds[i] && rest[j] == rounds[j]);
    }
    let (u, listed, dealt) = consensus.slow_run(s, current_round, rest);
    let (t, list, done) = consensus.slow_run(s, current_round, rounds);
    lemma_slow_run(consensus, s, current_round, rounds);
    lemma_slow_run_indexed(consensus, s, current_round, rounds);
    lemma_slow_run(consensus, s, current_round, rest);
    lemma_slow_run_indexed(consensus, s, current_round, rest);
    lemma_slow_step_decides(consensus, u, current_round, q);
    assert(t == consensus.slow_step(u, current_round, q).0);
    if q == round {
        assert forall|i: int| 0 <= i < rest.len() implies #[trigger] rest[i] < round by {
            assert(rest[i] == rounds[i]);
        }
        lemma_slow_before(consensus, s, current_round, rest, round);
        lemma_same_decidable(consensus, s, u, current_round, round);
        assert forall|a: PublicKey| #[trigger] t.dag.contains_key(at(round, a)) implies s.dag.contains_key(
            at(round, a),
        ) && u.dag.contains_key(at(round, a)) && u.dag[at(round, a)] == s.dag[at(round, a)] by {
            assert(at(round, a).round >= round);
            assert(u.dag.contains_key(at(round, a)) == s.dag.contains_key(at(round, a)));
        }
    } else {
        let k = choose|k: int| 0 <= k < rounds.len() && rounds[k] == round;
        assert(rest[k] == round);
        lemma_slow_turn(consensus, s, current_round, rest, round);
        assert forall|a: PublicKey| #[trigger] t.dag.contains_key(at(round, a)) implies u.dag.contains_key(
            at(round, a),
        ) && t.dag[at(round, a)] == u.dag[at(round, a)] by {
            assert(at(round, a).round != q);
        }
    }
}

/// The slow path touches only the statuses of the rounds it is given.
proof fn lemma_slow_others(
    consensus: Consensus,
    s: StateView,
    current_round: Round,
    rounds: Seq<Round>,
)
    requires
        s.is_sound(),
        s.is_indexed(),
    ensures
        ({
            let t = consensus.slow_run(s, current_round, rounds).0;
            forall|p: DagPosition| #[trigger]
                t.dag.contains_key(p) ==> s.dag.contains_key(p) && (!rounds.contains(p.round)
                    ==> t.dag[p] == s.dag[p])
        }),
    decreases rounds.len(),
{
    if rounds.len() > 0 {
        let rest = rounds.drop_last();
        let q = rounds.last();
        lemma_slow_others(consensus, s, current_round, rest);
        lemma_slow_run(consensus, s, current_round, rest);
        lemma_slow_run_indexed(consensus, s, current_round, rest);
        let u = consensus.slow_run(s, current_round, rest).0;
        let t = consensus.slow_run(s, current_round, rounds).0;
        lemma_slow_step_decides(consensus, u, current_round, q);
        assert(t == consensus.slow_step(u, current_round, q).0);
        assert(rounds[rounds.len() - 1] == q);
        assert forall|p: DagPosition| #[trigger] t.dag.contains_key(p) implies s.dag.contains_key(p)
            && (!rounds.contains(p.round) ==> t.dag[p] == s.dag[p]) by {
            assert(u.dag.contains_key(p));
            if rest.contains(p.round) {
                let i = choose|i: int| 0 <= i < rest.len() && rest[i] == p.round;
                assert(rounds[i] == p.round);
            }
        }
    }
}

/// A committed round is dealt with when its turn comes.
proof fn lemma_slow_stale(
    consensus: Consensus,
    s: StateView,
    current_round: Round,
    rounds: Seq<Round>,
    round: Round,
)
    requires
        s.is_sound(),
        s.is_indexed(),
        rounds.contains(round),
        round == 0 || round <= s.last_committed_certificate_round,
    ensures
        consensus.slow_run(s, current_round, rounds).2.contains(round),
    decreases rounds.len(),
{
    let rest = rounds.drop_last();
    let k = choose|k: int| 0 <= k < rounds.len() && rounds[k] == round;
    lemma_slow_run(consensus, s, current_round, rest);
    lemma_slow_run_indexed(consensus, s, current_round, rest);
    let u = consensus.slow_run(s, current_round, rest).0;
    lemma_slow_step_decides(consensus, u, current_round, rounds.last());
    if rounds.last() != round {
        assert(rest[k] == round);
        lemma_slow_stale(consensus, s, current_round, rest, round);
    }
}

/// What the slow path does with a round that is left to it and is beyond what is committed. The round
/// is dealt with exactly if two solid steps later the leader has a certificate by now and a quorum has
/// certificates in the next round. Then each of its certificates that stays in the DAG is accepted or
/// rejected, and what had been decided stands; otherwise the round stays, with the statuses it had.
/// Before two solid steps have passed all of its certificates stay in the DAG. A round that is
/// committed, or that of the genesis, is dealt with in any case.
pub proof fn lemma_slow_path_decides(
    consensus: Consensus,
    s: StateView,
    current_round: Round,
    round: Round,
)
    requires
        s.is_sound(),
        s.is_indexed(),
        s.slow_path_pending_rounds.finite(),
        s.slow_path_pending_rounds.contains(round),
        round < Round::MAX,
    ensures
        ({
            let t = consensus.slow_result(s, current_round).0;
            let step = consensus.committee().solid_step_length;
            let later = round + 2 * (if step > 1 {
                step as int
            } else {
                1
            });
            let stays = t.slow_path_pending_rounds.contains(round);
            if round == 0 || round <= s.last_committed_certificate_round {
                !stays
            } else {
                &&& current_round < later ==> stays && forall|a: PublicKey| #[trigger]
                    s.dag.contains_key(at(round, a)) ==> t.dag.contains_key(at(round, a))
                        && t.dag[at(round, a)] == s.dag[at(round, a)]
                &&& !stays ==> later <= current_round && s.dag.contains_key(
                    at(later as Round, turn(&consensus, later)),
                )
                &&& !stays <==> is_decidable(&consensus, s, current_round, round)
                &&& forall|a: PublicKey| #[trigger]
                    t.dag.contains_key(at(round, a)) ==> s.dag.contains_key(at(round, a)) && ({
                        let old_status = s.dag[at(round, a)].status;
                        let status = t.dag[at(round, a)].status;
                        &&& t.dag[at(round, a)].certificate == s.dag[at(round, a)].certificate
                        &&& old_status == CommitStatus::OneValent || old_status
                            == CommitStatus::ZeroValent ==> status == old_status
                        &&& !stays ==> status == CommitStatus::OneValent || status
                            == CommitStatus::ZeroValent
                        &&& stays ==> status == old_status
                    })
            }
        }),
{
    let rounds = ordered(s.slow_path_pending_rounds);
    let (u, list, done) = consensus.slow_run(s, current_round, rounds);
    let t = consensus.slow_result(s, current_round).0;
    lemma_ordered_finite(s.slow_path_pending_rounds);
    lemma_slow_run_pending(consensus, s, current_round, rounds);
    assert(rounds.contains(round));
    assert(ascends(rounds)) by {
        assert forall|i: int, j: int| 0 <= i < j < rounds.len() implies #[trigger] rounds[i]
            < #[trigger] rounds[j] by {
            assert(rounds[i].below(rounds[j]));
        }
    }
    if round == 0 || round <= s.last_committed_certificate_round {
        lemma_slow_stale(consensus, s, current_round, rounds, round);
    } else {
        lemma_slow_turn(consensus, s, current_round, rounds, round);
        if current_round < two_steps_on(&consensus, round) {
            lemma_slow_early(consensus, s, current_round, rounds, round);
            assert forall|a: PublicKey| #[trigger] s.dag.contains_key(at(round, a)) implies
                t.dag.contains_key(at(round, a)) && t.dag[at(round, a)] == s.dag[at(round, a)] by {
                assert(at(round, a).round >= round);
                assert(u.dag.contains_key(at(round, a)) == s.dag.contains_key(at(round, a)));
            }
        }
    }
}

/// The slow path takes up no round of its own: the rounds that are left to it after it were left to it
/// before, and certificates of other rounds keep their statuses.
pub proof fn lemma_slow_path_leaves_others(consensus: Consensus, s: StateView, current_round: Round)
    requires
        s.is_sound(),
        s.is_indexed(),
        s.slow_path_pending_rounds.finite(),
    ensures
        ({
            let t = consensus.slow_result(s, current_round).0;
            &&& t.slow_path_pending_rounds.subset_of(s.slow_path_pending_rounds)
            &&& forall|p: DagPosition| #[trigger]
                t.dag.contains_key(p) ==> s.dag.contains_key(p) && (
                !s.slow_path_pending_rounds.contains(p.round) ==> t.dag[p] == s.dag[p])
        }),
{
    let rounds = ordered(s.slow_path_pending_rounds);
    lemma_ordered_finite(s.slow_path_pending_rounds);
    lemma_slow_run_pending(consensus, s, current_round, rounds);
    lemma_slow_others(consensus, s, current_round, rounds);
    let t = consensus.slow_result(s, current_round).0;
    assert forall|p: DagPosition| #[trigger] t.dag.contains_key(p) implies s.dag.contains_key(p) && (
    !s.slow_path_pending_rounds.contains(p.round) ==> t.dag[p] == s.dag[p]) by {
        assert(rounds.contains(p.round) == s.slow_path_pending_rounds.contains(p.round));
    }
}

/// Dealing with a list of rounds brings the authors to what it commits.
proof fn lemma_slow_run_comes(
    consensus: Consensus,
    s: StateView,
    current_round: Round,
    rounds: Seq<Round>,
)
    requires
        s.is_sound(),
        s.is_indexed(),
    ensures
        ({
            let (t, list, done) = consensus.slow_run(s, current_round, rounds);
            comes_to(s, t, list)
        }),
    decreases rounds.len(),
{
    if rounds.len() > 0 {
        let rest = rounds.drop_last();
        lemma_slow_run_comes(consensus, s, current_round, rest);
        lemma_slow_run(consensus, s, current_round, rest);
        lemma_slow_run_indexed(consensus, s, current_round, rest);
        let (u, listed, dealt) = consensus.slow_run(s, current_round, rest);
        let (t, more, done) = consensus.slow_step(u, current_round, rounds.last());
        lemma_slow_step_decides(consensus, u, current_round, rounds.last());
        assert(comes_to(u, t, more));
        lemma_comes_join(s, u, t, listed, more);
    }
}

/// All that is committed is given out: when a certificate arrives, first the fast path looks at its
/// round and then the slow path, and the authors come just to the certificates that the two lists
/// name.
pub proof fn lemma_arrival(consensus: Consensus, s: StateView, c: CertificateView)
    requires
        s.is_sound(),
        c.header.parents.finite(),
        s.inserted(c).is_indexed(),
    ensures
        ({
            let (t, fast, slow) = consensus.step_result(s, c);
            let looked = consensus.fast_result(s.inserted(c), c.header.round);
            &&& fast == looked.1
            &&& slow == consensus.slow_result(looked.0, c.header.round).1
            &&& t == consensus.slow_result(looked.0, c.header.round).0
            &&& comes_to(s, t, fast + slow)
        }),
{
    let round = c.header.round;
    let inserted = s.inserted(c);
    let (u, fast) = consensus.fast_result(inserted, round);
    let (t, slow) = consensus.slow_result(u, round);
    lemma_inserted_sound(s, c);
    lemma_fast_path(consensus, inserted, round);
    lemma_fast_path_decides(consensus, inserted, round);
    assert(comes_to(inserted, u, fast));
    assert(comes_to(s, inserted, seq![]));
    lemma_comes_join(s, inserted, u, seq![], fast);
    assert(seq![] + fast =~= fast);
    lemma_fast_path_indexed(consensus, inserted, round);
    let rounds = ordered(u.slow_path_pending_rounds);
    lemma_slow_run_comes(consensus, u, round, rounds);
    assert(comes_to(u, t, slow));
    lemma_comes_join(s, u, t, fast, slow);
}

/// The fast path leaves every certificate of the DAG to be found by its digest.
proof fn lemma_fast_path_indexed(consensus: Consensus, s: StateView, round: Round)
    requires
        s.is_sound(),
        s.is_indexed(),
    ensures
        consensus.fast_result(s, round).0.is_indexed(),
{
    lemma_due(consensus, s, round);
    if consensus.fast_path_applies(s, round) {
        let r = (round - 1) as Round;
        let status = |c: CertificateView| consensus.fast_status(s, round, c);
        lemma_decided(s, r, status);
        lemma_decided_indexed(s, r, status);
        lemma_commit_round_indexed(consensus, s.decided(r, status), r);
    }
}

} // verus!
