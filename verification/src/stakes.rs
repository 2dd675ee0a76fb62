//! The stake of a set of authorities together, whatever the order in which it is added up.
use vstd::prelude::*;

use crate::committee::Committee;
use crate::crypto::PublicKey;

verus! {

/// What an authority brings: the stake that the committee has for it, or nothing.
pub open spec fn stake_in(committee: &Committee, name: PublicKey) -> nat {
    if committee.authorities@.contains_key(name) {
        committee.authorities@[name].stake as nat
    } else {
        0
    }
}

/// What a finite set of authorities brings together.
pub open spec fn total_stake(committee: &Committee, names: Set<PublicKey>) -> nat
    decreases names.len(),
{
    if names.finite() && names.len() > 0 {
        let name = names.choose();
        stake_in(committee, name) + total_stake(committee, names.remove(name))
    } else {
        0
    }
}

/// Any authority can be added up last.
pub proof fn lemma_total_remove(committee: &Committee, names: Set<PublicKey>, name: PublicKey)
    requires
        names.finite(),
        names.contains(name),
    ensures
        total_stake(committee, names) == stake_in(committee, name) + total_stake(
            committee,
            names.remove(name),
        ),
    decreases names.len(),
{
    let first = names.choose();
    assert(names.len() > 0);
    assert(names.contains(first));
    if first != name {
        lemma_total_remove(committee, names.remove(first), name);
        lemma_total_remove(committee, names.remove(name), first);
        assert(names.remove(first).remove(name) =~= names.remove(name).remove(first));
    }
}

/// One more authority adds its own stake.
pub proof fn lemma_total_insert(committee: &Committee, names: Set<PublicKey>, name: PublicKey)
    requires
        names.finite(),
        !names.contains(name),
    ensures
        total_stake(committee, names.insert(name)) == stake_in(committee, name) + total_stake(
            committee,
            names,
        ),
{
    lemma_total_remove(committee, names.insert(name), name);
    assert(names.insert(name).remove(name) =~= names);
}

/// A part of the authorities and the others bring together what all of them bring.
pub proof fn lemma_total_split(committee: &Committee, part: Set<PublicKey>, all: Set<PublicKey>)
    requires
        all.finite(),
        part.subset_of(all),
    ensures
        total_stake(committee, part) + total_stake(committee, all.difference(part))
            == total_stake(committee, all),
    decreases part.len(),
{
    vstd::set_lib::lemma_set_subset_finite(all, part);
    if part.len() == 0 {
        assert(part =~= Set::empty());
        assert(all.difference(part) =~= all);
    } else {
        let name = part.choose();
        assert(part.contains(name));
        lemma_total_remove(committee, part, name);
        lemma_total_remove(committee, all, name);
        lemma_total_split(committee, part.remove(name), all.remove(name));
        assert(all.remove(name).difference(part.remove(name)) =~= all.difference(part));
    }
}

/// Adding up the stakes of a list in which no name comes twice gives the stake of the set of those
/// names that count.
pub proof fn lemma_weight_total(
    committee: &Committee,
    names: Seq<PublicKey>,
    counts: spec_fn(PublicKey) -> bool,
    set: Set<PublicKey>,
)
    requires
        names.no_duplicates(),
        forall|a: PublicKey| #[trigger] set.contains(a) == (names.contains(a) && counts(a)),
    ensures
        set.finite(),
        committee.weight_where(names, counts) == total_stake(committee, set),
    decreases names.len(),
{
    if names.len() == 0 {
        assert(set =~= Set::empty());
    } else {
        let rest = names.drop_last();
        let name = names.last();
        let part = set.remove(name);
        assert(rest.no_duplicates()) by {
            assert forall|i: int, j: int| 0 <= i < rest.len() && 0 <= j < rest.len() && i
                != j implies rest[i] != rest[j] by {
                assert(names[i] != names[j]);
            }
        }
        assert(!rest.contains(name)) by {
            if rest.contains(name) {
                let i = choose|i: int| 0 <= i < rest.len() && rest[i] == name;
                assert(names[i] != names[names.len() - 1]);
            }
        }
        assert forall|a: PublicKey| #[trigger] part.contains(a) == (rest.contains(a) && counts(
            a,
        )) by {
            if rest.contains(a) {
                let i = choose|i: int| 0 <= i < rest.len() && rest[i] == a;
                assert(names[i] == a);
            }
            if names.contains(a) && a != name {
                let i = choose|i: int| 0 <= i < names.len() && names[i] == a;
                assert(rest[i] == a);
            }
        }
        lemma_weight_total(committee, rest, counts, part);
        assert(names.contains(name)) by {
            assert(names[names.len() - 1] == name);
        }
        if counts(name) {
            assert(set.contains(name));
            assert(part.insert(name) =~= set);
            lemma_total_insert(committee, part, name);
        } else {
            assert(part =~= set);
        }
    }
}

} // verus!
