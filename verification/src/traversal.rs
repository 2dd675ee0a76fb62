//! Walking the DAG from a certificate to its ancestors.
use vstd::prelude::*;

use crate::collections::KeySet;
use crate::committee::Round;
use crate::crypto::Digest;
use crate::dag::{lemma_push_contains, CommitStatus, DagEntry, EntryView, State, StateView};
use crate::keys::{ordered, Key};
use crate::messages::{Certificate, CertificateView};

verus! {

/// What the certificates of a list of references hold.
pub open spec fn reference_views(certificates: Seq<&Certificate>) -> Seq<CertificateView> {
    certificates.map_values(|c: &Certificate| c@)
}

/// The digests of a list of certificates.
pub open spec fn digests(certificates: Seq<CertificateView>) -> Seq<Digest> {
    certificates.map_values(|c: CertificateView| c.digest())
}

/// More than any round.
pub open spec fn beyond_rounds() -> nat {
    0x1_0000_0000_0000_0000
}

impl StateView {
    /// The parent of a certificate of round `child_round` under a digest, in any earlier round.
    pub open spec fn parent_entry(self, child_round: Round, digest: Digest) -> Option<EntryView> {
        match self.lookup(digest) {
            Some(entry) => if entry.certificate.round() < child_round {
                Some(entry)
            } else {
                None
            },
            None => None,
        }
    }

    /// The walk goes on to a parent. Where it looks for what to commit, it leaves out what has been
    /// rejected, what has been committed and what it has met.
    pub open spec fn follows(self, trim: bool, entry: EntryView, seen: Seq<CertificateView>) -> bool {
        !trim || {
            &&& entry.status != CommitStatus::ZeroValent
            &&& !digests(seen).contains(entry.digest)
            &&& !self.is_committed(entry.certificate)
        }
    }

    /// The parents that the walk goes on to, out of a list of parent digests.
    pub open spec fn followed(
        self,
        trim: bool,
        child_round: Round,
        parents: Seq<Digest>,
        seen: Seq<CertificateView>,
    ) -> Seq<CertificateView>
        decreases parents.len(),
    {
        if parents.len() == 0 {
            seq![]
        } else {
            let earlier = self.followed(trim, child_round, parents.drop_last(), seen);
            match self.parent_entry(child_round, parents.last()) {
                Some(entry) => if self.follows(trim, entry, seen) {
                    earlier.push(entry.certificate)
                } else {
                    earlier
                },
                None => earlier,
            }
        }
    }

    /// The walk stops at a certificate that it has met, or, where it looks for what to commit, at
    /// one that has been committed.
    pub open spec fn stops(self, trim: bool, c: CertificateView, seen: Seq<CertificateView>) -> bool {
        digests(seen).contains(c.digest()) || (trim && self.is_committed(c))
    }

    /// The certificates met by a depth-first walk from `c`, in pre-order, after those in `seen`. Of
    /// the parents of a certificate the walk takes the one with the greatest digest first.
    pub open spec fn walk(
        self,
        trim: bool,
        c: CertificateView,
        seen: Seq<CertificateView>,
    ) -> Seq<CertificateView>
        decreases c.round() as nat, 1nat, 0nat,
    {
        if self.stops(trim, c, seen) {
            seen
        } else {
            self.walk_all(
                trim,
                self.followed(trim, c.round(), ordered(c.header.parents), seen.push(c)),
                c.round() as nat,
                seen.push(c),
            )
        }
    }

    /// The certificates met by walks from each of a list of certificates below round `bound`, the
    /// last one first.
    pub open spec fn walk_all(
        self,
        trim: bool,
        list: Seq<CertificateView>,
        bound: nat,
        seen: Seq<CertificateView>,
    ) -> Seq<CertificateView>
        decreases bound, 0nat, list.len(),
    {
        if list.len() == 0 || list.last().round() >= bound {
            seen
        } else {
            self.walk_all(
                trim,
                list.drop_last(),
                bound,
                self.walk(trim, list.last(), seen),
            )
        }
    }

    /// The ancestors of a certificate, itself first, in the order of the walk.
    pub open spec fn ancestors(self, trim: bool, c: CertificateView) -> Seq<CertificateView> {
        self.walk(trim, c, seq![])
    }

    /// There is a path from `from` down to `to` along parent links.
    pub open spec fn links(self, from: CertificateView, to: CertificateView) -> bool {
        digests(self.ancestors(false, from)).contains(to.digest())
    }
}

/// All certificates of a list are below a round.
pub open spec fn below_round(list: Seq<CertificateView>, bound: nat) -> bool {
    forall|i: int| 0 <= i < list.len() ==> (#[trigger] list[i]).round() < bound
}

/// What the walk goes on to is below the child.
pub(crate) proof fn lemma_followed_below(
    s: StateView,
    trim: bool,
    child_round: Round,
    parents: Seq<Digest>,
    seen: Seq<CertificateView>,
)
    ensures
        below_round(s.followed(trim, child_round, parents, seen), child_round as nat),
    decreases parents.len(),
{
    if parents.len() > 0 {
        lemma_followed_below(s, trim, child_round, parents.drop_last(), seen);
    }
}

/// The bound on the rounds of a list does not change the walks from it.
proof fn lemma_walk_bound(
    s: StateView,
    trim: bool,
    list: Seq<CertificateView>,
    a: nat,
    b: nat,
    seen: Seq<CertificateView>,
)
    requires
        below_round(list, a),
        below_round(list, b),
    ensures
        s.walk_all(trim, list, a, seen) == s.walk_all(trim, list, b, seen),
    decreases list.len(),
{
    if list.len() > 0 {
        assert(list.last() == list[list.len() - 1]);
        lemma_walk_bound(s, trim, list.drop_last(), a, b, s.walk(trim, list.last(), seen));
    }
}

/// Walking from two lists put together walks from the second and then from the first.
proof fn lemma_walk_append(
    s: StateView,
    trim: bool,
    first: Seq<CertificateView>,
    second: Seq<CertificateView>,
    bound: nat,
    seen: Seq<CertificateView>,
)
    requires
        below_round(first, bound),
        below_round(second, bound),
    ensures
        s.walk_all(trim, first + second, bound, seen) == s.walk_all(
            trim,
            first,
            bound,
            s.walk_all(trim, second, bound, seen),
        ),
    decreases second.len(),
{
    if second.len() == 0 {
        assert(first + second =~= first);
    } else {
        assert((first + second).last() == second.last());
        assert(second.last() == second[second.len() - 1]);
        assert((first + second).drop_last() =~= first + second.drop_last());
        lemma_walk_append(
            s,
            trim,
            first,
            second.drop_last(),
            bound,
            s.walk(trim, second.last(), seen),
        );
    }
}

/// A walk only adds to what it has met.
pub(crate) proof fn lemma_walk_extends(
    s: StateView,
    trim: bool,
    c: CertificateView,
    seen: Seq<CertificateView>,
)
    ensures
        seen.is_prefix_of(s.walk(trim, c, seen)),
    decreases c.round() as nat, 1nat, 0nat,
{
    if !s.stops(trim, c, seen) {
        let next = s.followed(trim, c.round(), ordered(c.header.parents), seen.push(c));
        lemma_walk_all_extends(s, trim, next, c.round() as nat, seen.push(c));
    }
}

/// Walks from a list only add to what they have met.
pub(crate) proof fn lemma_walk_all_extends(
    s: StateView,
    trim: bool,
    list: Seq<CertificateView>,
    bound: nat,
    seen: Seq<CertificateView>,
)
    ensures
        seen.is_prefix_of(s.walk_all(trim, list, bound, seen)),
    decreases bound, 0nat, list.len(),
{
    if list.len() > 0 && list.last().round() < bound {
        let mid = s.walk(trim, list.last(), seen);
        lemma_walk_extends(s, trim, list.last(), seen);
        lemma_walk_all_extends(s, trim, list.drop_last(), bound, mid);
    }
}

/// What a walk has met stays met.
pub(crate) proof fn lemma_prefix_digests(a: Seq<CertificateView>, b: Seq<CertificateView>, d: Digest)
    requires
        a.is_prefix_of(b),
        digests(a).contains(d),
    ensures
        digests(b).contains(d),
{
    let i = choose|i: int| 0 <= i < digests(a).len() && digests(a)[i] == d;
    assert(a[i] == b[i]);
    assert(digests(b)[i] == d);
}

/// Taking the last certificate of a stack: it is skipped, or it is met and its parents take its
/// place.
proof fn lemma_walk_step(
    s: StateView,
    trim: bool,
    rest: Seq<CertificateView>,
    c: CertificateView,
    seen: Seq<CertificateView>,
)
    requires
        below_round(rest, beyond_rounds()),
    ensures
        s.stops(trim, c, seen) ==> s.walk_all(trim, rest.push(c), beyond_rounds(), seen)
            == s.walk_all(trim, rest, beyond_rounds(), seen),
        !s.stops(trim, c, seen) ==> ({
            let next = s.followed(trim, c.round(), ordered(c.header.parents), seen.push(c));
            &&& below_round(rest + next, beyond_rounds())
            &&& s.walk_all(trim, rest.push(c), beyond_rounds(), seen) == s.walk_all(
                trim,
                rest + next,
                beyond_rounds(),
                seen.push(c),
            )
        }),
{
    assert(rest.push(c).drop_last() =~= rest);
    assert(rest.push(c).last() == c);
    let met = s.walk(trim, c, seen);
    assert(s.walk_all(trim, rest.push(c), beyond_rounds(), seen) == s.walk_all(
        trim,
        rest,
        beyond_rounds(),
        met,
    ));
    if !s.stops(trim, c, seen) {
        let parents = ordered(c.header.parents);
        let next = s.followed(trim, c.round(), parents, seen.push(c));
        lemma_followed_below(s, trim, c.round(), parents, seen.push(c));
        assert(below_round(next, beyond_rounds()));
        lemma_walk_bound(s, trim, next, c.round() as nat, beyond_rounds(), seen.push(c));
        lemma_walk_append(s, trim, rest, next, beyond_rounds(), seen.push(c));
    }
}

/// The parent of a certificate of round `child_round` under a digest.
pub fn find_parent_certificate<'a>(
    state: &'a State,
    child_round: Round,
    parent_digest: &Digest,
) -> (r: Option<&'a DagEntry>)
    ensures
        match r {
            Some(entry) => state@.parent_entry(child_round, *parent_digest) == Some(entry@),
            None => state@.parent_entry(child_round, *parent_digest) is None,
        },
{
    match state.find_certificate(parent_digest) {
        Some(entry) => {
            if entry.certificate.round() < child_round {
                Some(entry)
            } else {
                None
            }
        },
        None => None,
    }
}

/// Puts the parents that the walk goes on to on the stack.
fn push_parents<'a>(
    state: &'a State,
    trim: bool,
    child: &Certificate,
    seen: &KeySet<Digest>,
    Ghost(met): Ghost<Seq<CertificateView>>,
    stack: &mut Vec<&'a Certificate>,
)
    requires
        seen@ == digests(met).to_set(),
        state@.well_formed(),
    ensures
        reference_views(final(stack)@) == reference_views(old(stack)@) + state@.followed(
            trim,
            child@.round(),
            ordered(child@.header.parents),
            met,
        ),
        forall|i: int|
            old(stack)@.len() <= i < final(stack)@.len() ==> state@.certificate_index.contains_key(
                (#[trigger] final(stack)@[i])@.digest(),
            ),
        forall|i: int|
            0 <= i < old(stack)@.len() ==> #[trigger] final(stack)@[i] == old(stack)@[i],
        final(stack)@.len() >= old(stack)@.len(),
{
    let ghost before = stack@;
    proof {
        use_type_invariant(&child.header.parents);
        child.header.parents.lemma_items();
    }
    let ghost parents = child.header.parents.items();
    let round: Round = child.round();
    let n: usize = child.header.parents.len();
    let mut i: usize = 0;
    assert(reference_views(stack@) =~= reference_views(before) + state@.followed(
        trim,
        round,
        parents.take(0),
        met,
    ));
    while i < n
        invariant
            i <= n,
            n == parents.len(),
            parents == child.header.parents.items(),
            round == child@.round(),
            state@.well_formed(),
            seen@ == digests(met).to_set(),
            reference_views(stack@) == reference_views(before) + state@.followed(
                trim,
                round,
                parents.take(i as int),
                met,
            ),
            stack@.len() >= before.len(),
            forall|j: int| 0 <= j < before.len() ==> #[trigger] stack@[j] == before[j],
            forall|j: int|
                before.len() <= j < stack@.len() ==> state@.certificate_index.contains_key(
                    (#[trigger] stack@[j])@.digest(),
                ),
        decreases n - i,
    {
        let parent: Digest = child.header.parents.at(i);
        let ghost held = stack@;
        proof {
            assert(parents.take(i + 1).drop_last() =~= parents.take(i as int));
            assert(parents.take(i + 1).last() == parent);
        }
        match find_parent_certificate(state, round, &parent) {
            Some(entry) => {
                proof {
                    assert(seen@.contains(entry.digest) == digests(met).contains(entry@.digest));
                    assert(state@.certificate_index.contains_key(parent));
                    assert(entry@ == state@.dag[state@.certificate_index[parent]]);
                    assert(entry@.certificate.digest() == parent);
                }
                let mut follow: bool = true;
                if trim {
                    follow = !is_rejected(entry) && !seen.contains(&entry.digest)
                        && !state.is_committed(&entry.certificate);
                }
                if follow {
                    stack.push(&entry.certificate);
                    assert(reference_views(stack@) =~= reference_views(held).push(
                        entry@.certificate,
                    ));
                }
            },
            None => {},
        }
        i = i + 1;
        assert(reference_views(stack@) =~= reference_views(before) + state@.followed(
            trim,
            round,
            parents.take(i as int),
            met,
        ));
    }
    assert(parents.take(n as int) =~= parents);
}

fn is_rejected(entry: &DagEntry) -> (r: bool)
    ensures
        r == (entry.status == CommitStatus::ZeroValent),
{
    entry.status == CommitStatus::ZeroValent
}

/// Distinct certificates of a finite set of digests are no more than the set.
proof fn lemma_distinct_len(list: Seq<Digest>, universe: Set<Digest>)
    requires
        universe.finite(),
        list.no_duplicates(),
        forall|i: int| 0 <= i < list.len() ==> universe.contains(#[trigger] list[i]),
    ensures
        list.len() <= universe.len(),
{
    list.unique_seq_to_set();
    vstd::seq_lib::seq_to_set_is_finite(list);
    assert(list.to_set().subset_of(universe));
    vstd::set_lib::lemma_len_subset(list.to_set(), universe);
}

/// What holds of the certificates met so far while a walk goes on: their digests are distinct, and
/// theirs and those of the stack come from the index or are the first certificate's.
spec fn walk_is_sound(
    universe: Set<Digest>,
    stack: Seq<CertificateView>,
    met: Seq<CertificateView>,
) -> bool {
    &&& universe.finite()
    &&& below_round(stack, beyond_rounds())
    &&& digests(met).no_duplicates()
    &&& forall|i: int| 0 <= i < stack.len() ==> universe.contains((#[trigger] stack[i]).digest())
    &&& forall|i: int| 0 <= i < met.len() ==> universe.contains((#[trigger] met[i]).digest())
}

/// The walk stays sound when the last certificate of the stack is met.
proof fn lemma_sound_step(
    s: StateView,
    trim: bool,
    universe: Set<Digest>,
    rest: Seq<CertificateView>,
    c: CertificateView,
    met: Seq<CertificateView>,
)
    requires
        s.well_formed(),
        s.certificate_index.dom().subset_of(universe),
        walk_is_sound(universe, rest.push(c), met),
        !digests(met).contains(c.digest()),
    ensures
        walk_is_sound(
            universe,
            rest + s.followed(trim, c.round(), ordered(c.header.parents), met.push(c)),
            met.push(c),
        ),
        met.len() < universe.len(),
{
    let parents = ordered(c.header.parents);
    let next = s.followed(trim, c.round(), parents, met.push(c));
    lemma_followed_below(s, trim, c.round(), parents, met.push(c));
    lemma_followed_indexed(s, trim, c.round(), parents, met.push(c));
    let stack = rest + next;
    assert(digests(met.push(c)) =~= digests(met).push(c.digest()));
    assert(rest.push(c)[rest.len() as int] == c);
    assert forall|i: int| 0 <= i < stack.len() implies universe.contains(
        (#[trigger] stack[i]).digest(),
    ) && stack[i].round() < beyond_rounds() by {
        if i < rest.len() {
            assert(rest.push(c)[i] == stack[i]);
        } else {
            assert(stack[i] == next[i - rest.len()]);
        }
    }
    assert forall|i: int| 0 <= i < met.push(c).len() implies universe.contains(
        (#[trigger] met.push(c)[i]).digest(),
    ) by {
        if i < met.len() {
            assert(met.push(c)[i] == met[i]);
        }
    }
    let list = digests(met.push(c));
    assert(list.no_duplicates()) by {
        assert forall|i: int, j: int| 0 <= i < j < list.len() implies list[i] != list[j] by {
            if j == met.len() {
                assert(digests(met)[i] == list[i]);
            } else {
                assert(digests(met)[i] == list[i] && digests(met)[j] == list[j]);
            }
        }
    }
    assert forall|i: int| 0 <= i < list.len() implies universe.contains(#[trigger] list[i]) by {
        assert(list[i] == met.push(c)[i].digest());
    }
    lemma_distinct_len(list, universe);
}

/// What the walk goes on to is in the index.
proof fn lemma_followed_indexed(
    s: StateView,
    trim: bool,
    child_round: Round,
    parents: Seq<Digest>,
    seen: Seq<CertificateView>,
)
    requires
        s.well_formed(),
    ensures
        ({
            let next = s.followed(trim, child_round, parents, seen);
            forall|i: int|
                0 <= i < next.len() ==> s.certificate_index.contains_key(
                    (#[trigger] next[i]).digest(),
                )
        }),
    decreases parents.len(),
{
    if parents.len() > 0 {
        lemma_followed_indexed(s, trim, child_round, parents.drop_last(), seen);
        let d = parents.last();
        if s.parent_entry(child_round, d) is Some {
            assert(s.certificate_index.contains_key(d));
            let p = s.certificate_index[d];
            assert(s.dag.contains_key(p));
            assert(s.dag[p].digest == d);
            assert(s.dag[p].certificate.digest() == d);
        }
        let earlier = s.followed(trim, child_round, parents.drop_last(), seen);
        let next = s.followed(trim, child_round, parents, seen);
        assert forall|i: int| 0 <= i < next.len() implies s.certificate_index.contains_key(
            (#[trigger] next[i]).digest(),
        ) by {
            if i < earlier.len() {
                assert(next[i] == earlier[i]);
            }
        }
    }
}

/// A walk with nothing met and one certificate on the stack gives its ancestors, and is sound.
proof fn lemma_walk_starts(s: StateView, trim: bool, start: CertificateView)
    requires
        s.well_formed(),
    ensures
        digests(seq![]) == Seq::<Digest>::empty(),
        s.walk_all(trim, seq![start], beyond_rounds(), seq![]) == s.ancestors(trim, start),
        walk_is_sound(
            s.certificate_index.dom().insert(start.digest()),
            seq![start],
            seq![],
        ),
{
    let stack = seq![start];
    assert(digests(seq![]) =~= seq![]);
    assert(stack.drop_last() =~= seq![]);
    assert(stack.last() == start);
    let met = s.walk(trim, start, seq![]);
    assert(s.walk_all(trim, seq![], beyond_rounds(), met) == met);
}

/// Below the last certificate of the stack the walk is as sound as with it.
proof fn lemma_sound_rest(
    universe: Set<Digest>,
    rest: Seq<CertificateView>,
    c: CertificateView,
    met: Seq<CertificateView>,
)
    requires
        walk_is_sound(universe, rest.push(c), met),
    ensures
        walk_is_sound(universe, rest, met),
{
    assert forall|i: int| 0 <= i < rest.len() implies (#[trigger] rest[i]).round()
        < beyond_rounds() && universe.contains(rest[i].digest()) by {
        assert(rest.push(c)[i] == rest[i]);
    }
}

/// The certificates of a walk from `start`, in the order in which it meets them.
pub(crate) fn walk_ancestors<'a>(state: &'a State, trim: bool, start: &'a Certificate) -> (r: Vec<
    &'a Certificate,
>)
    requires
        state@.well_formed(),
    ensures
        reference_views(r@) == state@.ancestors(trim, start@),
{
    let ghost s = state@;
    let ghost universe = s.certificate_index.dom().insert(start@.digest());
    let ghost goal = s.ancestors(trim, start@);
    let mut met: Vec<&'a Certificate> = Vec::new();
    let mut seen: KeySet<Digest> = KeySet::new();
    let mut stack: Vec<&'a Certificate> = Vec::new();
    stack.push(start);
    proof {
        lemma_walk_starts(s, trim, start@);
        assert(reference_views(stack@) =~= seq![start@]);
        assert(reference_views(met@) =~= seq![]);
        assert(seen@ =~= digests(reference_views(met@)).to_set());
    }
    loop
        invariant
            s == state@,
            s.well_formed(),
            s.certificate_index.dom().subset_of(universe),
            walk_is_sound(universe, reference_views(stack@), reference_views(met@)),
            seen@ == digests(reference_views(met@)).to_set(),
            s.walk_all(
                trim,
                reference_views(stack@),
                beyond_rounds(),
                reference_views(met@),
            ) == goal,
        ensures
            reference_views(met@) == goal,
        decreases universe.len() - met@.len(), stack@.len(),
    {
        let ghost before = reference_views(stack@);
        let ghost met_before = reference_views(met@);
        match stack.pop() {
            None => {
                break;
            },
            Some(current) => {
                let ghost rest = reference_views(stack@);
                let ghost c = current@;
                proof {
                    assert(before =~= rest.push(c));
                    lemma_sound_rest(universe, rest, c, met_before);
                    lemma_walk_step(s, trim, rest, c, met_before);
                }
                let digest: Digest = current.digest();
                assert(seen@.contains(digest) == digests(met_before).contains(digest));
                if seen.contains(&digest) || (trim && state.is_committed(current)) {
                    continue ;
                }
                proof {
                    lemma_sound_step(s, trim, universe, rest, c, met_before);
                }
                let _ = seen.insert(digest);
                met.push(current);
                proof {
                    assert(reference_views(met@) =~= met_before.push(c));
                    assert(digests(met_before.push(c)) =~= digests(met_before).push(digest));
                    digests(met_before).lemma_push_to_set_commute(digest);
                }
                push_parents(state, trim, current, &seen, Ghost(reference_views(met@)), &mut stack);
            },
        }
    }
    met
}

/// Says whether there is a path from `from` down to `to` along parent links.
pub fn linked(from: &Certificate, to: &Certificate, state: &State) -> (r: bool)
    requires
        state@.well_formed(),
    ensures
        r == state@.links(from@, to@),
{
    let target: Digest = to.digest();
    let ghost s = state@;
    let ghost universe = s.certificate_index.dom().insert(from@.digest());
    let ghost goal = s.ancestors(false, from@);
    let ghost mut met: Seq<CertificateView> = seq![];
    let mut visited: KeySet<Digest> = KeySet::new();
    let mut stack: Vec<&Certificate> = Vec::new();
    stack.push(from);
    proof {
        lemma_walk_starts(s, false, from@);
        assert(reference_views(stack@) =~= seq![from@]);
        assert(visited@ =~= digests(met).to_set());
    }
    loop
        invariant
            s == state@,
            s.well_formed(),
            target == to@.digest(),
            s.certificate_index.dom().subset_of(universe),
            walk_is_sound(universe, reference_views(stack@), met),
            visited@ == digests(met).to_set(),
            s.walk_all(false, reference_views(stack@), beyond_rounds(), met) == goal,
            goal == s.ancestors(false, from@),
            !digests(met).contains(target),
        ensures
            met == goal,
            !digests(met).contains(target),
        decreases universe.len() - met.len(), stack@.len(),
    {
        let ghost before = reference_views(stack@);
        match stack.pop() {
            None => {
                break;
            },
            Some(current) => {
                let ghost rest = reference_views(stack@);
                let ghost c = current@;
                proof {
                    assert(before =~= rest.push(c));
                    lemma_sound_rest(universe, rest, c, met);
                    lemma_walk_step(s, false, rest, c, met);
                }
                let digest: Digest = current.digest();
                assert(visited@.contains(digest) == digests(met).contains(digest));
                if !visited.insert(digest) {
                    assert(visited@ =~= digests(met).to_set());
                    continue ;
                }
                let ghost met_before = met;
                proof {
                    lemma_sound_step(s, false, universe, rest, c, met);
                    met = met.push(c);
                    assert(digests(met) =~= digests(met_before).push(digest));
                    digests(met_before).lemma_push_to_set_commute(digest);
                    lemma_push_contains(digests(met_before), digest, target);
                }
                if digest.same(&target) {
                    proof {
                        let next = s.followed(
                            false,
                            c.round(),
                            ordered(c.header.parents),
                            met,
                        );
                        lemma_walk_all_extends(s, false, rest + next, beyond_rounds(), met);
                        lemma_prefix_digests(met, goal, target);
                    }
                    return true;
                }
                push_parents(state, false, current, &visited, Ghost(met), &mut stack);
            },
        }
    }
    false
}

} // verus!
