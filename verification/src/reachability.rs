//! What the walks through the DAG meet: the certificates that can be reached along parent links.
use vstd::prelude::*;

use crate::committee::Round;
use crate::crypto::Digest;
use crate::dag::{lemma_push_contains, CommitStatus, DagPosition, StateView};
use crate::keys::{lemma_ordered_finite, ordered};
use crate::messages::CertificateView;
use crate::traversal::{
    below_round, beyond_rounds, digests, lemma_followed_below, lemma_prefix_digests,
    lemma_walk_all_extends, lemma_walk_extends,
};

verus! {

impl StateView {
    /// A parent link leads to a certificate of the DAG. Where the walk looks for what to commit, the
    /// certificate must be neither rejected nor committed.
    pub open spec fn has_parent(self, trim: bool, child_round: Round, digest: Digest) -> bool {
        match self.parent_entry(child_round, digest) {
            Some(entry) => !trim || {
                &&& entry.status != CommitStatus::ZeroValent
                &&& !self.is_committed(entry.certificate)
            },
            None => false,
        }
    }

    /// The certificate that a parent link leads to.
    pub open spec fn parent(self, child_round: Round, digest: Digest) -> CertificateView {
        self.parent_entry(child_round, digest)->0.certificate
    }

    /// Parent links lead from `c` to `d` in any number of steps.
    pub open spec fn reaches(self, trim: bool, c: CertificateView, d: CertificateView) -> bool
        decreases c.round(),
    {
        c == d || exists|k: Digest| #[trigger]
            c.header.parents.contains(k) && self.has_parent(trim, c.round(), k) && self.reaches(
                trim,
                self.parent(c.round(), k),
                d,
            )
    }

    /// No other certificate of the DAG is found by the digest of `c`.
    pub open spec fn is_unmistaken(self, c: CertificateView) -> bool {
        self.lookup(c.digest()) matches Some(entry) ==> entry.certificate == c
    }

    /// The certificates of the DAG have finitely many parents.
    pub open spec fn has_finite_links(self) -> bool {
        forall|p: DagPosition| #[trigger]
            self.dag.contains_key(p) ==> self.dag[p].certificate.header.parents.finite()
    }

    /// A certificate is `start`, or the one that the DAG has for its digest.
    pub open spec fn is_met(self, start: CertificateView, c: CertificateView) -> bool {
        c == start || (self.lookup(c.digest()) is Some && self.lookup(c.digest())->0.certificate
            == c)
    }
}

/// The parents of a certificate have been met.
spec fn parents_met(
    s: StateView,
    trim: bool,
    c: CertificateView,
    seen: Seq<CertificateView>,
) -> bool {
    forall|k: Digest| #[trigger]
        c.header.parents.contains(k) && s.has_parent(trim, c.round(), k) ==> digests(seen).contains(
            k,
        )
}

/// The parents of the certificates of `seen` below round `bound` have been met.
spec fn closed_below(s: StateView, trim: bool, seen: Seq<CertificateView>, bound: nat) -> bool {
    forall|i: int|
        0 <= i < seen.len() && seen[i].round() < bound ==> #[trigger] parents_met(
            s,
            trim,
            seen[i],
            seen,
        )
}

/// A list has finitely many parents.
spec fn finite_parents(list: Seq<CertificateView>) -> bool {
    forall|i: int| 0 <= i < list.len() ==> (#[trigger] list[i]).header.parents.finite()
}

/// What stands in `met` beyond `seen` is below round `bound`.
spec fn new_below(seen: Seq<CertificateView>, met: Seq<CertificateView>, bound: nat) -> bool {
    forall|i: int| seen.len() <= i < met.len() ==> (#[trigger] met[i]).round() < bound
}

/// A certificate has been met, or the walk does not look at it.
spec fn is_done(s: StateView, trim: bool, c: CertificateView, seen: Seq<CertificateView>) -> bool {
    digests(seen).contains(c.digest()) || (trim && s.is_committed(c))
}

/// In a well-formed state a certificate found by a digest has that digest.
pub(crate) proof fn lemma_lookup(s: StateView, d: Digest)
    requires
        s.well_formed(),
    ensures
        s.lookup(d) matches Some(entry) ==> entry.certificate.digest() == d && entry.digest == d
            && s.dag.contains_key(s.certificate_index[d]) && s.dag[s.certificate_index[d]] == entry,
{
    if s.lookup(d) is Some {
        assert(s.certificate_index.contains_key(d));
        assert(s.dag.contains_key(s.certificate_index[d]));
    }
}

/// The walk goes on to a parent that has not been met.
proof fn lemma_followed_contains(
    s: StateView,
    trim: bool,
    child_round: Round,
    parents: Seq<Digest>,
    seen: Seq<CertificateView>,
    k: Digest,
)
    requires
        s.well_formed(),
        parents.contains(k),
        s.has_parent(trim, child_round, k),
    ensures
        digests(seen).contains(k) || s.followed(trim, child_round, parents, seen).contains(
            s.parent(child_round, k),
        ),
    decreases parents.len(),
{
    let i = choose|i: int| 0 <= i < parents.len() && parents[i] == k;
    let earlier = s.followed(trim, child_round, parents.drop_last(), seen);
    if i < parents.len() - 1 {
        assert(parents.drop_last()[i] == k);
        lemma_followed_contains(s, trim, child_round, parents.drop_last(), seen, k);
        match s.parent_entry(child_round, parents.last()) {
            Some(entry) => {
                lemma_push_contains(earlier, entry.certificate, s.parent(child_round, k));
            },
            None => {},
        }
    } else {
        assert(parents.last() == k);
        lemma_lookup(s, k);
        lemma_push_contains(earlier, s.parent(child_round, k), s.parent(child_round, k));
    }
}

/// The walk goes on to parents only.
proof fn lemma_followed_parents(
    s: StateView,
    trim: bool,
    child_round: Round,
    parents: Seq<Digest>,
    seen: Seq<CertificateView>,
    c: CertificateView,
) -> (k: Digest)
    requires
        s.followed(trim, child_round, parents, seen).contains(c),
    ensures
        parents.contains(k),
        s.has_parent(trim, child_round, k),
        s.parent(child_round, k) == c,
    decreases parents.len(),
{
    let next = s.followed(trim, child_round, parents, seen);
    let i = choose|i: int| 0 <= i < next.len() && next[i] == c;
    let earlier = s.followed(trim, child_round, parents.drop_last(), seen);
    if i < earlier.len() {
        assert(earlier[i] == c);
        let k = lemma_followed_parents(s, trim, child_round, parents.drop_last(), seen, c);
        let j = choose|j: int| 0 <= j < parents.drop_last().len() && parents.drop_last()[j] == k;
        assert(parents[j] == k);
        k
    } else {
        assert(parents[parents.len() - 1] == parents.last());
        parents.last()
    }
}

/// The parents of a certificate stay met.
proof fn lemma_parents_met(
    s: StateView,
    trim: bool,
    c: CertificateView,
    seen: Seq<CertificateView>,
    met: Seq<CertificateView>,
)
    requires
        parents_met(s, trim, c, seen),
        seen.is_prefix_of(met),
    ensures
        parents_met(s, trim, c, met),
{
    assert forall|k: Digest| #[trigger]
        c.header.parents.contains(k) && s.has_parent(trim, c.round(), k) implies digests(
        met,
    ).contains(k) by {
        lemma_prefix_digests(seen, met, k);
    }
}

/// A walk leaves nothing out: it meets the certificate that it starts from, and the parents of
/// everything that it meets.
proof fn lemma_walk_closed(
    s: StateView,
    trim: bool,
    c: CertificateView,
    seen: Seq<CertificateView>,
    bound: nat,
)
    requires
        s.well_formed(),
        s.has_finite_links(),
        c.header.parents.finite(),
        c.round() < bound,
        closed_below(s, trim, seen, bound),
    ensures
        closed_below(s, trim, s.walk(trim, c, seen), bound),
        new_below(seen, s.walk(trim, c, seen), c.round() as nat + 1),
        is_done(s, trim, c, s.walk(trim, c, seen)),
    decreases c.round() as nat, 1nat, 0nat,
{
    if !s.stops(trim, c, seen) {
        let parents = ordered(c.header.parents);
        let grown = seen.push(c);
        let r = c.round() as nat;
        let next = s.followed(trim, c.round(), parents, grown);
        let met = s.walk_all(trim, next, r, grown);
        assert(met == s.walk(trim, c, seen));
        lemma_ordered_finite(c.header.parents);
        lemma_followed_below(s, trim, c.round(), parents, grown);
        assert(finite_parents(next)) by {
            assert forall|i: int| 0 <= i < next.len() implies (
            #[trigger] next[i]).header.parents.finite() by {
                assert(next.contains(next[i]));
                let k = lemma_followed_parents(s, trim, c.round(), parents, grown, next[i]);
                lemma_lookup(s, k);
            }
        }
        assert(closed_below(s, trim, grown, r)) by {
            assert forall|i: int| 0 <= i < grown.len() && grown[i].round() < r implies #[trigger]
                parents_met(s, trim, grown[i], grown) by {
                assert(grown[i] == seen[i]);
                assert(parents_met(s, trim, seen[i], seen));
                lemma_parents_met(s, trim, seen[i], seen, grown);
            }
        }
        lemma_walk_all_closed(s, trim, next, r, grown);
        lemma_walk_all_extends(s, trim, next, r, grown);
        assert(grown[seen.len() as int] == c);
        assert(met[seen.len() as int] == c);
        assert(digests(met)[seen.len() as int] == c.digest());
        assert(parents_met(s, trim, c, met)) by {
            assert forall|k: Digest| #[trigger]
                c.header.parents.contains(k) && s.has_parent(trim, c.round(), k) implies digests(
                met,
            ).contains(k) by {
                assert(parents.contains(k));
                lemma_followed_contains(s, trim, c.round(), parents, grown, k);
                lemma_lookup(s, k);
                if digests(grown).contains(k) {
                    lemma_prefix_digests(grown, met, k);
                } else {
                    let p = s.parent(c.round(), k);
                    let i = choose|i: int| 0 <= i < next.len() && next[i] == p;
                    assert(is_done(s, trim, next[i], met));
                }
            }
        }
        assert forall|i: int| 0 <= i < met.len() && met[i].round() < bound implies #[trigger]
            parents_met(s, trim, met[i], met) by {
            if i < seen.len() {
                assert(met[i] == grown[i]);
                assert(seen[i] == met[i]);
                assert(parents_met(s, trim, seen[i], seen));
                assert(seen.is_prefix_of(met));
                lemma_parents_met(s, trim, seen[i], seen, met);
            } else if i > seen.len() {
                assert(met[i].round() < r);
            }
        }
    }
}

/// Walks from a list leave nothing out.
proof fn lemma_walk_all_closed(
    s: StateView,
    trim: bool,
    list: Seq<CertificateView>,
    bound: nat,
    seen: Seq<CertificateView>,
)
    requires
        s.well_formed(),
        s.has_finite_links(),
        finite_parents(list),
        below_round(list, bound),
        closed_below(s, trim, seen, bound),
    ensures
        closed_below(s, trim, s.walk_all(trim, list, bound, seen), bound),
        new_below(seen, s.walk_all(trim, list, bound, seen), bound),
        forall|i: int|
            0 <= i < list.len() ==> is_done(
                s,
                trim,
                #[trigger] list[i],
                s.walk_all(trim, list, bound, seen),
            ),
    decreases bound, 0nat, list.len(),
{
    if list.len() > 0 {
        let c = list.last();
        assert(c == list[list.len() - 1]);
        let mid = s.walk(trim, c, seen);
        let met = s.walk_all(trim, list.drop_last(), bound, mid);
        assert(met == s.walk_all(trim, list, bound, seen));
        lemma_walk_closed(s, trim, c, seen, bound);
        lemma_walk_extends(s, trim, c, seen);
        assert forall|i: int| 0 <= i < list.drop_last().len() implies (
        #[trigger] list.drop_last()[i]).header.parents.finite() && list.drop_last()[i].round()
            < bound by {
            assert(list.drop_last()[i] == list[i]);
        }
        lemma_walk_all_closed(s, trim, list.drop_last(), bound, mid);
        lemma_walk_all_extends(s, trim, list.drop_last(), bound, mid);
        assert forall|i: int| 0 <= i < list.len() implies is_done(s, trim, #[trigger] list[i], met) by {
            if i < list.len() - 1 {
                assert(is_done(s, trim, list.drop_last()[i], met));
            } else if digests(mid).contains(c.digest()) {
                lemma_prefix_digests(mid, met, c.digest());
            }
        }
        assert forall|i: int| seen.len() <= i < met.len() implies (#[trigger] met[i]).round()
            < bound by {
            if i < mid.len() {
                assert(met[i] == mid[i]);
            }
        }
    }
}

/// A walk meets only what can be reached, and nothing twice.
pub(crate) proof fn lemma_walk_reaches(
    s: StateView,
    trim: bool,
    c: CertificateView,
    seen: Seq<CertificateView>,
)
    requires
        s.well_formed(),
        s.has_finite_links(),
        c.header.parents.finite(),
        digests(seen).no_duplicates(),
    ensures
        ({
            let met = s.walk(trim, c, seen);
            &&& digests(met).no_duplicates()
            &&& forall|i: int|
                seen.len() <= i < met.len() ==> s.reaches(trim, c, #[trigger] met[i])
            &&& trim ==> forall|i: int|
                seen.len() <= i < met.len() ==> !s.is_committed(#[trigger] met[i])
        }),
    decreases c.round() as nat, 1nat, 0nat,
{
    if !s.stops(trim, c, seen) {
        let parents = ordered(c.header.parents);
        let grown = seen.push(c);
        let r = c.round() as nat;
        let next = s.followed(trim, c.round(), parents, grown);
        let met = s.walk_all(trim, next, r, grown);
        assert(met == s.walk(trim, c, seen));
        lemma_ordered_finite(c.header.parents);
        assert(digests(grown) =~= digests(seen).push(c.digest()));
        assert(digests(grown).no_duplicates()) by {
            let list = digests(grown);
            assert forall|i: int, j: int| 0 <= i < j < list.len() implies list[i] != list[j] by {
                assert(digests(seen)[i] == list[i]);
                if j < seen.len() {
                    assert(digests(seen)[j] == list[j]);
                }
            }
        }
        assert forall|i: int| 0 <= i < next.len() implies (
        #[trigger] next[i]).header.parents.finite() by {
            assert(next.contains(next[i]));
            let k = lemma_followed_parents(s, trim, c.round(), parents, grown, next[i]);
            lemma_lookup(s, k);
        }
        lemma_walk_all_reaches(s, trim, next, r, grown);
        lemma_walk_all_extends(s, trim, next, r, grown);
        assert forall|i: int| seen.len() <= i < met.len() implies s.reaches(
            trim,
            c,
            #[trigger] met[i],
        ) && (trim ==> !s.is_committed(met[i])) by {
            if i == seen.len() {
                assert(met[i] == grown[i]);
            } else {
                assert(is_reached(s, trim, next, met[i]));
                let j = choose|j: int|
                    0 <= j < next.len() && s.reaches(trim, #[trigger] next[j], met[i]);
                assert(next.contains(next[j]));
                let k = lemma_followed_parents(s, trim, c.round(), parents, grown, next[j]);
                assert(c.header.parents.contains(k));
            }
        }
    }
}

/// A certificate can be reached from one of a list.
spec fn is_reached(
    s: StateView,
    trim: bool,
    list: Seq<CertificateView>,
    d: CertificateView,
) -> bool {
    exists|j: int| 0 <= j < list.len() && s.reaches(trim, #[trigger] list[j], d)
}

/// Walks from a list meet only what can be reached, and nothing twice.
proof fn lemma_walk_all_reaches(
    s: StateView,
    trim: bool,
    list: Seq<CertificateView>,
    bound: nat,
    seen: Seq<CertificateView>,
)
    requires
        s.well_formed(),
        s.has_finite_links(),
        finite_parents(list),
        digests(seen).no_duplicates(),
    ensures
        ({
            let met = s.walk_all(trim, list, bound, seen);
            &&& digests(met).no_duplicates()
            &&& forall|i: int|
                seen.len() <= i < met.len() ==> is_reached(s, trim, list, #[trigger] met[i])
            &&& trim ==> forall|i: int|
                seen.len() <= i < met.len() ==> !s.is_committed(#[trigger] met[i])
        }),
    decreases bound, 0nat, list.len(),
{
    if list.len() > 0 && list.last().round() < bound {
        let c = list.last();
        let rest = list.drop_last();
        assert(c == list[list.len() - 1]);
        let mid = s.walk(trim, c, seen);
        let met = s.walk_all(trim, rest, bound, mid);
        lemma_walk_reaches(s, trim, c, seen);
        lemma_walk_extends(s, trim, c, seen);
        assert forall|i: int| 0 <= i < rest.len() implies (
        #[trigger] rest[i]).header.parents.finite() by {
            assert(rest[i] == list[i]);
        }
        lemma_walk_all_reaches(s, trim, rest, bound, mid);
        lemma_walk_all_extends(s, trim, rest, bound, mid);
        assert forall|i: int| seen.len() <= i < met.len() implies is_reached(
            s,
            trim,
            list,
            #[trigger] met[i],
        ) && (trim ==> !s.is_committed(met[i])) by {
            if i < mid.len() {
                assert(met[i] == mid[i]);
                assert(s.reaches(trim, list[list.len() - 1], met[i]));
            } else {
                assert(is_reached(s, trim, rest, met[i]));
                let j = choose|j: int|
                    0 <= j < rest.len() && s.reaches(trim, #[trigger] rest[j], met[i]);
                assert(rest[j] == list[j]);
                assert(s.reaches(trim, list[j], met[i]));
            }
        }
    }
}

/// What is reached is the certificate itself or one that the DAG has for its digest.
proof fn lemma_reached_is_met(
    s: StateView,
    trim: bool,
    c: CertificateView,
    d: CertificateView,
    start: CertificateView,
)
    requires
        s.well_formed(),
        s.is_met(start, c),
        s.reaches(trim, c, d),
    ensures
        s.is_met(start, d),
    decreases c.round(),
{
    if c != d {
        let k = choose|k: Digest| #[trigger]
            c.header.parents.contains(k) && s.has_parent(trim, c.round(), k) && s.reaches(
                trim,
                s.parent(c.round(), k),
                d,
            );
        lemma_lookup(s, k);
        lemma_reached_is_met(s, trim, s.parent(c.round(), k), d, start);
    }
}

/// Whatever can be reached from a certificate of a closed list is in the list.
proof fn lemma_closed_contains(
    s: StateView,
    trim: bool,
    start: CertificateView,
    met: Seq<CertificateView>,
    c: CertificateView,
    d: CertificateView,
)
    requires
        s.well_formed(),
        s.is_unmistaken(start),
        closed_below(s, trim, met, beyond_rounds()),
        forall|i: int| 0 <= i < met.len() ==> s.is_met(start, #[trigger] met[i]),
        met.contains(c),
        s.reaches(trim, c, d),
    ensures
        met.contains(d),
    decreases c.round(),
{
    if c != d {
        let k = choose|k: Digest| #[trigger]
            c.header.parents.contains(k) && s.has_parent(trim, c.round(), k) && s.reaches(
                trim,
                s.parent(c.round(), k),
                d,
            );
        let i = choose|i: int| 0 <= i < met.len() && met[i] == c;
        assert(parents_met(s, trim, met[i], met));
        assert(digests(met).contains(k));
        let j = choose|j: int| 0 <= j < digests(met).len() && digests(met)[j] == k;
        lemma_lookup(s, k);
        assert(s.is_met(start, met[j]));
        assert(met[j] == s.parent(c.round(), k));
        lemma_closed_contains(s, trim, start, met, s.parent(c.round(), k), d);
    }
}

/// The walk from a certificate meets exactly what can be reached from it, each once. Where it looks
/// for what to commit, a certificate that has been committed leads nowhere.
pub proof fn lemma_ancestors_reachable(s: StateView, trim: bool, start: CertificateView)
    requires
        s.well_formed(),
        s.has_finite_links(),
        start.header.parents.finite(),
        s.is_unmistaken(start),
    ensures
        digests(s.ancestors(trim, start)).no_duplicates(),
        trim && s.is_committed(start) ==> s.ancestors(trim, start) =~= seq![],
        !(trim && s.is_committed(start)) ==> forall|d: CertificateView| #[trigger]
            s.ancestors(trim, start).contains(d) == s.reaches(trim, start, d),
        trim ==> forall|d: CertificateView| #[trigger]
            s.ancestors(trim, start).contains(d) ==> !s.is_committed(d),
{
    let none: Seq<CertificateView> = seq![];
    let met = s.ancestors(trim, start);
    assert(digests(none) =~= seq![]);
    lemma_walk_reaches(s, trim, start, none);
    if !(trim && s.is_committed(start)) {
        lemma_walk_closed(s, trim, start, none, beyond_rounds());
        assert forall|i: int| 0 <= i < met.len() implies s.is_met(start, #[trigger] met[i]) by {
            lemma_reached_is_met(s, trim, start, met[i], start);
        }
        assert(!s.stops(trim, start, none));
        let parents = ordered(start.header.parents);
        lemma_walk_all_extends(
            s,
            trim,
            s.followed(trim, start.round(), parents, none.push(start)),
            start.round() as nat,
            none.push(start),
        );
        assert(met[0] == none.push(start)[0]);
        assert(met.contains(start));
        assert forall|d: CertificateView| #[trigger]
            met.contains(d) == s.reaches(trim, start, d) by {
            if s.reaches(trim, start, d) {
                lemma_closed_contains(s, trim, start, met, start, d);
            }
        }
    }
}

/// One certificate is linked to another exactly where parent links lead to one with its digest.
pub proof fn lemma_linked_reachable(s: StateView, from: CertificateView, to: CertificateView)
    requires
        s.well_formed(),
        s.has_finite_links(),
        from.header.parents.finite(),
        s.is_unmistaken(from),
    ensures
        s.links(from, to) <==> exists|d: CertificateView| #[trigger]
            s.reaches(false, from, d) && d.digest() == to.digest(),
{
    lemma_ancestors_reachable(s, false, from);
    let met = s.ancestors(false, from);
    if s.links(from, to) {
        let i = choose|i: int| 0 <= i < digests(met).len() && digests(met)[i] == to.digest();
        assert(met.contains(met[i]));
        assert(s.reaches(false, from, met[i]));
    }
    if exists|d: CertificateView| #[trigger]
        s.reaches(false, from, d) && d.digest() == to.digest() {
        let d = choose|d: CertificateView| #[trigger]
            s.reaches(false, from, d) && d.digest() == to.digest();
        assert(met.contains(d));
        let i = choose|i: int| 0 <= i < met.len() && met[i] == d;
        assert(digests(met)[i] == to.digest());
    }
}

} // verus!
