//! Paths through the DAG, written out certificate by certificate, and what a commit does to a state.
use vstd::prelude::*;

use crate::committee::Round;
use crate::consensus::Consensus;
use crate::crypto::{Digest, PublicKey};
use crate::dag::{CommitStatus, DagPosition, StateView};
use crate::messages::CertificateView;
use crate::safety::{lemma_commit_round, lemma_commits_exactly};

verus! {

/// The place of a certificate.
pub open spec fn place(c: CertificateView) -> DagPosition {
    DagPosition { round: c.header.round, author: c.header.author }
}

/// The DAG has the certificate at its place.
pub open spec fn stands(s: StateView, c: CertificateView) -> bool {
    s.dag.contains_key(place(c)) && s.dag[place(c)].certificate == c
}

/// The author of the certificate has one of its round or a later one committed.
pub open spec fn is_past(s: StateView, c: CertificateView) -> bool {
    s.last_committed.contains_key(c.header.author) && s.last_committed[c.header.author]
        >= c.header.round
}

/// One certificate names the other as a parent, which stands in the DAG in an earlier round.
pub open spec fn is_child(s: StateView, c: CertificateView, parent: CertificateView) -> bool {
    &&& c.header.parents.contains(parent.digest())
    &&& stands(s, parent)
    &&& parent.header.round < c.header.round
}

/// Each certificate of a chain is a parent of the one before it.
pub open spec fn is_path(s: StateView, chain: Seq<CertificateView>) -> bool {
    &&& chain.len() > 0
    &&& forall|i: int| 0 < i < chain.len() ==> is_child(s, chain[i - 1], #[trigger] chain[i])
}

/// The certificates of a chain after the first are neither rejected nor committed.
pub open spec fn is_open(s: StateView, chain: Seq<CertificateView>) -> bool {
    forall|i: int|
        0 < i < chain.len() ==> s.dag[place(#[trigger] chain[i])].status != CommitStatus::ZeroValent
            && !is_past(s, chain[i])
}

/// A path leads from one certificate down to another.
pub open spec fn has_path(s: StateView, from: CertificateView, to: CertificateView) -> bool {
    exists|chain: Seq<CertificateView>| #[trigger]
        is_path(s, chain) && chain[0] == from && chain.last() == to
}

/// A path leads from one certificate down to another past nothing that is rejected or committed.
pub open spec fn has_open_path(s: StateView, from: CertificateView, to: CertificateView) -> bool {
    exists|chain: Seq<CertificateView>| #[trigger]
        is_path(s, chain) && is_open(s, chain) && chain[0] == from && chain.last() == to
}

/// Where the links of the walks lead, a path leads.
pub(crate) proof fn lemma_reaches_path(s: StateView, trim: bool, c: CertificateView, d: CertificateView) -> (r:
    Seq<CertificateView>)
    requires
        s.well_formed(),
        s.reaches(trim, c, d),
    ensures
        is_path(s, r),
        trim ==> is_open(s, r),
        r[0] == c,
        r.last() == d,
    decreases c.round(),
{
    if c == d {
        seq![c]
    } else {
        let k = choose|k: Digest| #[trigger]
            c.header.parents.contains(k) && s.has_parent(trim, c.round(), k) && s.reaches(
                trim,
                s.parent(c.round(), k),
                d,
            );
        let p = s.parent(c.round(), k);
        assert(s.certificate_index.contains_key(k));
        assert(s.dag.contains_key(s.certificate_index[k]));
        assert(p.digest() == k && stands(s, p));
        let rest = lemma_reaches_path(s, trim, p, d);
        let r = seq![c] + rest;
        assert forall|i: int| 0 < i < r.len() implies is_child(s, r[i - 1], #[trigger] r[i]) && (
        trim ==> s.dag[place(r[i])].status != CommitStatus::ZeroValent && !is_past(s, r[i])) by {
            assert(r[i] == rest[i - 1]);
            if i > 1 {
                assert(r[i - 1] == rest[i - 2]);
                assert(is_child(s, rest[i - 2], rest[i - 1]));
            } else {
                assert(r[0] == c && r[1] == p);
            }
        }
        assert(r.last() == rest.last());
        r
    }
}

/// Where a path leads, the links of the walks lead.
pub(crate) proof fn lemma_path_reaches(s: StateView, trim: bool, chain: Seq<CertificateView>)
    requires
        s.well_formed(),
        s.is_indexed(),
        is_path(s, chain),
        trim ==> is_open(s, chain),
    ensures
        s.reaches(trim, chain[0], chain.last()),
    decreases chain.len(),
{
    if chain.len() > 1 {
        let rest = chain.skip(1);
        assert forall|i: int| 0 < i < rest.len() implies is_child(
            s,
            rest[i - 1],
            #[trigger] rest[i],
        ) && (trim ==> s.dag[place(rest[i])].status != CommitStatus::ZeroValent && !is_past(
            s,
            rest[i],
        )) by {
            assert(rest[i] == chain[i + 1] && rest[i - 1] == chain[i]);
            assert(is_child(s, chain[i], chain[i + 1]));
        }
        lemma_path_reaches(s, trim, rest);
        assert(rest.last() == chain.last());
        let c = chain[0];
        let p = chain[1];
        assert(is_child(s, c, p));
        let k = p.digest();
        assert(s.dag.contains_key(place(p)));
        assert(s.certificate_index.contains_key(s.dag[place(p)].digest));
        assert(s.parent_entry(c.round(), k) == Some(s.dag[place(p)]));
        assert(s.has_parent(trim, c.round(), k));
        assert(s.parent(c.round(), k) == p);
    }
}

/// One certificate is linked to another exactly where a path leads to one with its digest, along
/// parents that stand in the DAG.
pub proof fn lemma_linked_by_path(s: StateView, from: CertificateView, to: CertificateView)
    requires
        s.is_sound(),
        s.is_indexed(),
        from.header.parents.finite(),
        s.is_unmistaken(from),
    ensures
        s.links(from, to) <==> exists|chain: Seq<CertificateView>| #[trigger]
            is_path(s, chain) && chain[0] == from && chain.last().digest() == to.digest(),
{
    crate::reachability::lemma_linked_reachable(s, from, to);
    if s.links(from, to) {
        let d = choose|d: CertificateView| #[trigger]
            s.reaches(false, from, d) && d.digest() == to.digest();
        let chain = lemma_reaches_path(s, false, from, d);
        assert(is_path(s, chain) && chain[0] == from && chain.last().digest() == to.digest());
    }
    if exists|chain: Seq<CertificateView>| #[trigger]
        is_path(s, chain) && chain[0] == from && chain.last().digest() == to.digest() {
        let chain = choose|chain: Seq<CertificateView>| #[trigger]
            is_path(s, chain) && chain[0] == from && chain.last().digest() == to.digest();
        lemma_path_reaches(s, false, chain);
        assert(s.reaches(false, from, chain.last()));
    }
}

/// A path goes down.
pub proof fn lemma_path_descends(s: StateView, chain: Seq<CertificateView>, i: int)
    requires
        is_path(s, chain),
        0 <= i < chain.len(),
    ensures
        chain[i].header.round <= chain[0].header.round,
        i > 0 ==> chain[i].header.round < chain[0].header.round,
    decreases i,
{
    if i > 0 {
        lemma_path_descends(s, chain, i - 1);
        assert(is_child(s, chain[i - 1], chain[i]));
    }
}

/// What is to be committed with the certificates of some authors in a round: whatever is not too old
/// and lies on an open path from one of them that is not committed.
pub open spec fn to_commit(
    s: StateView,
    gc_depth: Round,
    round: Round,
    chosen: Set<PublicKey>,
    c: CertificateView,
) -> bool {
    &&& c.header.round + gc_depth >= s.last_committed_certificate_round
    &&& exists|d: CertificateView| #[trigger]
        has_open_path(s, d, c) && stands(s, d) && !is_past(s, d) && d.header.round == round
            && chosen.contains(d.header.author)
}

/// From one state to the next each author has come to the latest of its rounds in a list of
/// certificates, unless it had come further, and the highest committed round is the latest of all.
pub open spec fn comes_to(s: StateView, t: StateView, list: Seq<CertificateView>) -> bool {
    &&& forall|a: PublicKey| #[trigger]
        t.last_committed.contains_key(a) <==> s.last_committed.contains_key(a) || exists|i: int|
            0 <= i < list.len() && (#[trigger] list[i]).header.author == a
    &&& forall|a: PublicKey| #[trigger]
        s.last_committed.contains_key(a) ==> s.last_committed[a] <= t.last_committed[a]
    &&& forall|i: int|
        0 <= i < list.len() ==> (#[trigger] list[i]).header.round
            <= t.last_committed[list[i].header.author]
    &&& forall|a: PublicKey| #[trigger]
        t.last_committed.contains_key(a) ==> (s.last_committed.contains_key(a)
            && t.last_committed[a] == s.last_committed[a]) || exists|i: int|
            0 <= i < list.len() && (#[trigger] list[i]).header.author == a
                && list[i].header.round == t.last_committed[a]
    &&& s.last_committed_certificate_round <= t.last_committed_certificate_round
    &&& forall|i: int|
        0 <= i < list.len() ==> (#[trigger] list[i]).header.round
            <= t.last_committed_certificate_round
    &&& t.last_committed_certificate_round == s.last_committed_certificate_round || exists|i: int|
        0 <= i < list.len() && (#[trigger] list[i]).header.round
            == t.last_committed_certificate_round
}

/// From one state to the next a list of certificates has been committed, and nothing else: the
/// committed rounds come to it, and what has been left behind is gone from the DAG and from the
/// indexes.
pub open spec fn takes_in(
    s: StateView,
    t: StateView,
    gc_depth: Round,
    list: Seq<CertificateView>,
) -> bool {
    &&& comes_to(s, t, list)
    &&& t.last_committed_leader_round == s.last_committed_leader_round
    &&& forall|p: DagPosition| #[trigger]
        t.dag.contains_key(p) <==> s.dag.contains_key(p) && is_kept(t, gc_depth, p)
    &&& forall|d: Digest| #[trigger]
        t.certificate_index.contains_key(d) <==> s.certificate_index.contains_key(d)
            && t.dag.contains_key(s.certificate_index[d])
    &&& forall|d: Digest| #[trigger]
        t.certificate_index.contains_key(d) ==> t.certificate_index[d] == s.certificate_index[d]
    &&& forall|d: Digest| #[trigger]
        t.digest_index.contains_key(d) <==> s.digest_index.contains_key(d) && !is_left(s, t, d)
    &&& forall|d: Digest| #[trigger]
        t.digest_index.contains_key(d) ==> t.digest_index[d] == s.digest_index[d]
}

/// A place is not left behind: it is not too far behind the highest committed round, and its author
/// has come no further.
pub open spec fn is_kept(t: StateView, gc_depth: Round, p: DagPosition) -> bool {
    &&& p.round + gc_depth >= t.last_committed_certificate_round
    &&& t.last_committed.contains_key(p.author) ==> p.round >= t.last_committed[p.author]
}

/// A certificate that has left the DAG has this digest or header id.
pub open spec fn is_left(s: StateView, t: StateView, d: Digest) -> bool {
    exists|p: DagPosition| #[trigger]
        s.dag.contains_key(p) && !t.dag.contains_key(p) && (s.dag[p].certificate.digest() == d
            || s.dag[p].certificate.header.id == d)
}

/// What recording a list of commits does to the committed rounds.
proof fn lemma_recorded_latest(s: StateView, list: Seq<CertificateView>)
    ensures
        ({
            let t = s.recorded_all(list);
            &&& t.dag == s.dag
            &&& t.certificate_index == s.certificate_index
            &&& t.digest_index == s.digest_index
            &&& t.slow_path_pending_rounds == s.slow_path_pending_rounds
            &&& t.last_committed_leader_round == s.last_committed_leader_round
            &&& forall|a: PublicKey| #[trigger]
                t.last_committed.contains_key(a) <==> s.last_committed.contains_key(a)
                    || exists|i: int|
                    0 <= i < list.len() && (#[trigger] list[i]).header.author == a
            &&& forall|a: PublicKey| #[trigger]
                s.last_committed.contains_key(a) ==> s.last_committed[a] <= t.last_committed[a]
            &&& forall|i: int|
                0 <= i < list.len() ==> (#[trigger] list[i]).header.round
                    <= t.last_committed[list[i].header.author]
            &&& forall|a: PublicKey| #[trigger]
                t.last_committed.contains_key(a) ==> (s.last_committed.contains_key(a)
                    && t.last_committed[a] == s.last_committed[a]) || exists|i: int|
                    0 <= i < list.len() && (#[trigger] list[i]).header.author == a
                        && list[i].header.round == t.last_committed[a]
            &&& s.last_committed_certificate_round <= t.last_committed_certificate_round
            &&& forall|i: int|
                0 <= i < list.len() ==> (#[trigger] list[i]).header.round
                    <= t.last_committed_certificate_round
            &&& t.last_committed_certificate_round == s.last_committed_certificate_round
                || exists|i: int|
                0 <= i < list.len() && (#[trigger] list[i]).header.round
                    == t.last_committed_certificate_round
        }),
    decreases list.len(),
{
    if list.len() > 0 {
        let rest = list.drop_last();
        let c = list.last();
        lemma_recorded_latest(s, rest);
        let before = s.recorded_all(rest);
        let t = s.recorded_all(list);
        let n = list.len() - 1;
        assert(t == before.recorded(c));
        assert(list[n] == c);
        assert forall|i: int| 0 <= i < n implies #[trigger] list[i] == rest[i] by {}
        assert forall|a: PublicKey| #[trigger]
            t.last_committed.contains_key(a) <==> s.last_committed.contains_key(a) || exists|i: int|
                0 <= i < list.len() && (#[trigger] list[i]).header.author == a by {
            if before.last_committed.contains_key(a) && !s.last_committed.contains_key(a) {
                let i = choose|i: int|
                    0 <= i < rest.len() && (#[trigger] rest[i]).header.author == a;
                assert(list[i].header.author == a);
            }
            if exists|i: int| 0 <= i < list.len() && (#[trigger] list[i]).header.author == a {
                let i = choose|i: int|
                    0 <= i < list.len() && (#[trigger] list[i]).header.author == a;
                if i < n {
                    assert(rest[i].header.author == a);
                }
            }
        }
        assert forall|a: PublicKey| #[trigger] t.last_committed.contains_key(a) implies (
        s.last_committed.contains_key(a) && t.last_committed[a] == s.last_committed[a])
            || exists|i: int|
            0 <= i < list.len() && (#[trigger] list[i]).header.author == a && list[i].header.round
                == t.last_committed[a] by {
            if a == c.header.author && (!before.last_committed.contains_key(a)
                || c.header.round > before.last_committed[a]) {
                assert(list[n].header.round == t.last_committed[a]);
            } else {
                assert(before.last_committed.contains_key(a));
                assert(t.last_committed[a] == before.last_committed[a]);
                if !(s.last_committed.contains_key(a) && t.last_committed[a]
                    == s.last_committed[a]) {
                    let i = choose|i: int|
                        0 <= i < rest.len() && (#[trigger] rest[i]).header.author == a
                            && rest[i].header.round == before.last_committed[a];
                    assert(list[i].header.author == a);
                }
            }
        }
        assert forall|i: int| 0 <= i < list.len() implies (#[trigger] list[i]).header.round
            <= t.last_committed[list[i].header.author] && list[i].header.round
            <= t.last_committed_certificate_round by {
            if i < n {
                assert(rest[i] == list[i]);
                assert(before.last_committed.contains_key(rest[i].header.author));
            }
        }
        if t.last_committed_certificate_round == before.last_committed_certificate_round {
            if t.last_committed_certificate_round != s.last_committed_certificate_round {
                let i = choose|i: int|
                    0 <= i < rest.len() && (#[trigger] rest[i]).header.round
                        == before.last_committed_certificate_round;
                assert(list[i].header.round == t.last_committed_certificate_round);
            }
        } else {
            assert(list[n].header.round == t.last_committed_certificate_round);
        }
    }
}

/// What a round commits, in terms of paths: with the authors whose certificates of the round have been
/// decided for, exactly what is to be committed with them comes out, each certificate once and by
/// round, and the state takes in just that.
pub proof fn lemma_commit_by_path(
    consensus: Consensus,
    s: StateView,
    round: Round,
    chosen: Set<PublicKey>,
)
    requires
        s.is_sound(),
        s.is_indexed(),
        forall|a: PublicKey| #[trigger]
            chosen.contains(a) <==> s.dag.contains_key(DagPosition { round, author: a })
                && s.dag[DagPosition { round, author: a }].status == CommitStatus::OneValent,
    ensures
        ({
            let (t, list) = consensus.commit_round(s, round);
            &&& forall|c: CertificateView| #[trigger]
                list.contains(c) <==> to_commit(s, consensus.gc_depth(), round, chosen, c)
            &&& forall|i: int, j: int|
                0 <= i < j < list.len() ==> (#[trigger] list[i]).header.round <= (
                #[trigger] list[j]).header.round && place(list[i]) != place(list[j])
            &&& takes_in(s, t, consensus.gc_depth(), list)
            &&& forall|p: DagPosition| #[trigger] t.dag.contains_key(p) ==> t.dag[p] == s.dag[p]
            &&& t.slow_path_pending_rounds == s.slow_path_pending_rounds
        }),
{
    let (t, list) = consensus.commit_round(s, round);
    let gc = consensus.gc_depth();
    lemma_commit_round(consensus, s, round);
    assert forall|c: CertificateView| #[trigger] list.contains(c) <==> to_commit(
        s,
        gc,
        round,
        chosen,
        c,
    ) by {
        lemma_commits_exactly(consensus, s, round, c);
        if list.contains(c) {
            let d = choose|d: CertificateView|
                #[trigger] s.reaches(true, d, c) && s.holds(d) && d.round() == round
                    && s.dag[d.position()].status == CommitStatus::OneValent && !s.is_committed(d);
            let chain = lemma_reaches_path(s, true, d, c);
            assert(has_open_path(s, d, c));
            assert(d.position() == place(d));
            assert(chosen.contains(d.header.author));
        }
        if to_commit(s, gc, round, chosen, c) {
            let d = choose|d: CertificateView| #[trigger]
                has_open_path(s, d, c) && stands(s, d) && !is_past(s, d) && d.header.round == round
                    && chosen.contains(d.header.author);
            let chain = choose|chain: Seq<CertificateView>| #[trigger]
                is_path(s, chain) && is_open(s, chain) && chain[0] == d && chain.last() == c;
            lemma_path_reaches(s, true, chain);
            assert(d.position() == place(d));
            assert(s.reaches(true, d, c) && s.holds(d));
        }
    }
    assert forall|i: int, j: int| 0 <= i < j < list.len() implies (#[trigger] list[i]).header.round
        <= (#[trigger] list[j]).header.round && place(list[i]) != place(list[j]) by {
        assert(list[i].round() <= list[j].round());
        assert(list[i].position() != list[j].position());
    }
    lemma_recorded_latest(s, list);
    let recorded = s.recorded_all(list);
    assert(comes_to(s, recorded, list));
    assert(t == recorded.cleaned(gc));
    assert forall|p: DagPosition| #[trigger]
        t.dag.contains_key(p) <==> s.dag.contains_key(p) && is_kept(t, gc, p) by {}
    assert forall|d: Digest| #[trigger]
        t.certificate_index.contains_key(d) <==> s.certificate_index.contains_key(d)
            && t.dag.contains_key(s.certificate_index[d]) by {
        if s.certificate_index.contains_key(d) {
            let p = s.certificate_index[d];
            assert(s.dag.contains_key(p) && s.dag[p].digest == d);
            if recorded.drops_digest(gc, d) {
                let q = choose|q: DagPosition| #[trigger]
                    recorded.dag.contains_key(q) && !recorded.keeps(gc, q)
                        && recorded.dag[q].digest == d;
                assert(s.dag.contains_key(q));
                assert(q == p);
            } else {
                assert(recorded.dag.contains_key(p));
                assert(recorded.keeps(gc, p));
            }
        }
    }
    assert forall|d: Digest| #[trigger]
        t.digest_index.contains_key(d) <==> s.digest_index.contains_key(d) && !is_left(
            s,
            t,
            d,
        ) by {
        if is_left(s, t, d) {
            let p = choose|p: DagPosition| #[trigger]
                s.dag.contains_key(p) && !t.dag.contains_key(p) && (s.dag[p].certificate.digest()
                    == d || s.dag[p].certificate.header.id == d);
            assert(recorded.dag.contains_key(p) && !recorded.keeps(gc, p));
        }
        if recorded.drops_digest(gc, d) {
            let q = choose|q: DagPosition| #[trigger]
                recorded.dag.contains_key(q) && !recorded.keeps(gc, q) && recorded.dag[q].digest
                    == d;
            assert(s.dag.contains_key(q) && !t.dag.contains_key(q));
        }
        if recorded.drops_id(gc, d) {
            let q = choose|q: DagPosition| #[trigger]
                recorded.dag.contains_key(q) && !recorded.keeps(gc, q)
                    && recorded.dag[q].certificate.header.id == d;
            assert(s.dag.contains_key(q) && !t.dag.contains_key(q));
        }
    }
}

/// Coming to one list and then to another is coming to both.
pub proof fn lemma_comes_join(
    s: StateView,
    u: StateView,
    t: StateView,
    a: Seq<CertificateView>,
    b: Seq<CertificateView>,
)
    requires
        comes_to(s, u, a),
        comes_to(u, t, b),
    ensures
        comes_to(s, t, a + b),
{
    let list = a + b;
    assert forall|i: int| 0 <= i < a.len() implies #[trigger] a[i] == list[i] by {}
    assert forall|i: int| 0 <= i < b.len() implies #[trigger] b[i] == list[i + a.len()] by {}
    assert forall|x: PublicKey| #[trigger]
        t.last_committed.contains_key(x) <==> s.last_committed.contains_key(x) || exists|i: int|
            0 <= i < list.len() && (#[trigger] list[i]).header.author == x by {
        if t.last_committed.contains_key(x) && !u.last_committed.contains_key(x) {
            let i = choose|i: int| 0 <= i < b.len() && (#[trigger] b[i]).header.author == x;
            assert(list[i + a.len()].header.author == x);
        }
        if u.last_committed.contains_key(x) && !s.last_committed.contains_key(x) {
            let i = choose|i: int| 0 <= i < a.len() && (#[trigger] a[i]).header.author == x;
            assert(list[i].header.author == x);
        }
        if exists|i: int| 0 <= i < list.len() && (#[trigger] list[i]).header.author == x {
            let i = choose|i: int| 0 <= i < list.len() && (#[trigger] list[i]).header.author == x;
            if i < a.len() {
                assert(a[i].header.author == x);
                assert(u.last_committed.contains_key(x));
            } else {
                assert(b[i - a.len()].header.author == x);
            }
        } else if s.last_committed.contains_key(x) {
            assert(u.last_committed.contains_key(x));
        }
        if s.last_committed.contains_key(x) {
            assert(u.last_committed.contains_key(x));
        }
    }
    assert forall|x: PublicKey| #[trigger] s.last_committed.contains_key(x) implies
        s.last_committed[x] <= t.last_committed[x] by {
        assert(u.last_committed.contains_key(x));
    }
    assert forall|i: int| 0 <= i < list.len() implies (#[trigger] list[i]).header.round
        <= t.last_committed[list[i].header.author] && list[i].header.round
        <= t.last_committed_certificate_round by {
        if i < a.len() {
            assert(a[i] == list[i]);
            assert(u.last_committed.contains_key(a[i].header.author));
        } else {
            assert(b[i - a.len()] == list[i]);
        }
    }
    assert forall|x: PublicKey| #[trigger] t.last_committed.contains_key(x) implies (
    s.last_committed.contains_key(x) && t.last_committed[x] == s.last_committed[x]) || exists|i: int|
        0 <= i < list.len() && (#[trigger] list[i]).header.author == x && list[i].header.round
            == t.last_committed[x] by {
        if u.last_committed.contains_key(x) && t.last_committed[x] == u.last_committed[x] {
            if !(s.last_committed.contains_key(x) && t.last_committed[x] == s.last_committed[x]) {
                let i = choose|i: int|
                    0 <= i < a.len() && (#[trigger] a[i]).header.author == x && a[i].header.round
                        == u.last_committed[x];
                assert(list[i].header.author == x);
            }
        } else {
            let i = choose|i: int|
                0 <= i < b.len() && (#[trigger] b[i]).header.author == x && b[i].header.round
                    == t.last_committed[x];
            assert(list[i + a.len()].header.author == x);
        }
    }
    if t.last_committed_certificate_round == u.last_committed_certificate_round {
        if t.last_committed_certificate_round != s.last_committed_certificate_round {
            let i = choose|i: int|
                0 <= i < a.len() && (#[trigger] a[i]).header.round
                    == u.last_committed_certificate_round;
            assert(list[i].header.round == t.last_committed_certificate_round);
        }
    } else {
        let i = choose|i: int|
            0 <= i < b.len() && (#[trigger] b[i]).header.round
                == t.last_committed_certificate_round;
        assert(list[i + a.len()].header.round == t.last_committed_certificate_round);
    }
}

} // verus!
