//! Totally ordered keys, as the ordered collections of this crate need them.
use vstd::prelude::*;

verus! {

/// A key with a strict total order.
pub trait Key: Sized + Copy {
    /// The strict order of the keys.
    spec fn below(self, other: Self) -> bool;

    proof fn below_irreflexive(a: Self)
        ensures
            !a.below(a),
    ;

    proof fn below_transitive(a: Self, b: Self, c: Self)
        requires
            a.below(b),
            b.below(c),
        ensures
            a.below(c),
    ;

    proof fn below_total(a: Self, b: Self)
        ensures
            a.below(b) || a == b || b.below(a),
    ;

    fn is_below(&self, other: &Self) -> (r: bool)
        ensures
            r == self.below(*other),
    ;

    fn same(&self, other: &Self) -> (r: bool)
        ensures
            r == (*self == *other),
    ;
}

impl Key for u64 {
    open spec fn below(self, other: Self) -> bool {
        self < other
    }

    proof fn below_irreflexive(a: Self) {
    }

    proof fn below_transitive(a: Self, b: Self, c: Self) {
    }

    proof fn below_total(a: Self, b: Self) {
    }

    fn is_below(&self, other: &Self) -> (r: bool) {
        *self < *other
    }

    fn same(&self, other: &Self) -> (r: bool) {
        *self == *other
    }
}

impl Key for u32 {
    open spec fn below(self, other: Self) -> bool {
        self < other
    }

    proof fn below_irreflexive(a: Self) {
    }

    proof fn below_transitive(a: Self, b: Self, c: Self) {
    }

    proof fn below_total(a: Self, b: Self) {
    }

    fn is_below(&self, other: &Self) -> (r: bool) {
        *self < *other
    }

    fn same(&self, other: &Self) -> (r: bool) {
        *self == *other
    }
}

/// The keys of `s` stand in strictly increasing order.
pub open spec fn strictly_sorted<K: Key>(s: Seq<K>) -> bool {
    forall|i: int, j: int| 0 <= i < j < s.len() ==> (#[trigger] s[i]).below(#[trigger] s[j])
}

/// The elements of a finite set, in increasing order.
pub open spec fn ordered<K: Key>(set: Set<K>) -> Seq<K> {
    choose|s: Seq<K>| strictly_sorted(s) && s.to_set() == set
}

/// A strictly sorted sequence names no key twice.
pub proof fn lemma_sorted_distinct<K: Key>(s: Seq<K>)
    requires
        strictly_sorted(s),
    ensures
        s.no_duplicates(),
{
    assert forall|i: int, j: int| 0 <= i < s.len() && 0 <= j < s.len() && i != j implies s[i]
        != s[j] by {
        K::below_irreflexive(s[i]);
        if i < j {
            assert(s[i].below(s[j]));
        } else {
            assert(s[j].below(s[i]));
        }
    }
}

/// Two strictly sorted sequences of the same keys are equal.
pub proof fn lemma_sorted_unique<K: Key>(a: Seq<K>, b: Seq<K>)
    requires
        strictly_sorted(a),
        strictly_sorted(b),
        a.to_set() == b.to_set(),
    ensures
        a == b,
    decreases a.len(),
{
    assert forall|k: K| a.contains(k) == b.contains(k) by {
        assert(a.to_set().contains(k) == a.contains(k));
        assert(b.to_set().contains(k) == b.contains(k));
    }
    if a.len() == 0 {
        if b.len() > 0 {
            assert(b.contains(b[0]));
            assert(a.contains(b[0]));
        }
        assert(a =~= b);
    } else {
        assert(a.contains(a[0]));
        assert(b.contains(a[0]));
        let x = a.last();
        let y = b.last();
        assert(a.contains(x) && b.contains(y));
        let i = choose|i: int| 0 <= i < b.len() && b[i] == x;
        let j = choose|j: int| 0 <= j < a.len() && a[j] == y;
        if x != y {
            assert(b[i].below(y));
            assert(a[j].below(x));
            K::below_transitive(x, y, x);
            K::below_irreflexive(x);
        }
        let a1 = a.drop_last();
        let b1 = b.drop_last();
        lemma_sorted_distinct(a);
        lemma_sorted_distinct(b);
        assert forall|k: K| a1.contains(k) == b1.contains(k) by {
            if a1.contains(k) {
                let p = choose|p: int| 0 <= p < a1.len() && a1[p] == k;
                assert(a[p] == k);
                assert(a.contains(k));
                let q = choose|q: int| 0 <= q < b.len() && b[q] == k;
                assert(b1[q] == k);
            }
            if b1.contains(k) {
                let p = choose|p: int| 0 <= p < b1.len() && b1[p] == k;
                assert(b[p] == k);
                assert(b.contains(k));
                let q = choose|q: int| 0 <= q < a.len() && a[q] == k;
                assert(a1[q] == k);
            }
        }
        assert(a1.to_set() =~= b1.to_set());
        lemma_sorted_unique(a1, b1);
        assert(a =~= a1.push(x));
        assert(b =~= b1.push(y));
    }
}

/// Sorting the set of a strictly sorted sequence gives that sequence back.
pub proof fn lemma_ordered<K: Key>(s: Seq<K>)
    requires
        strictly_sorted(s),
    ensures
        ordered(s.to_set()) == s,
{
    let t = ordered(s.to_set());
    assert(strictly_sorted(s) && s.to_set() == s.to_set());
    lemma_sorted_unique(t, s);
}

/// Inserting a key at its rank keeps a sequence sorted.
pub proof fn lemma_insert_sorted<K: Key>(s: Seq<K>, i: int, key: K)
    requires
        strictly_sorted(s),
        !s.contains(key),
        0 <= i <= s.len(),
        forall|j: int| 0 <= j < i ==> (#[trigger] s[j]).below(key),
        forall|j: int| i <= j < s.len() ==> !(#[trigger] s[j]).below(key),
    ensures
        strictly_sorted(s.insert(i, key)),
        s.insert(i, key).to_set() == s.to_set().insert(key),
{
    let t = s.insert(i, key);
    assert forall|p: int, q: int| 0 <= p < q < t.len() implies (#[trigger] t[p]).below(
        #[trigger] t[q],
    ) by {
        if p == i {
            assert(t[q] == s[q - 1]);
            assert(s.contains(s[q - 1]));
            K::below_total(s[q - 1], key);
        } else if q == i {
            assert(t[p] == s[p]);
        } else {
            let a = if p < i { p } else { p - 1 };
            let b = if q < i { q } else { q - 1 };
            assert(t[p] == s[a] && t[q] == s[b]);
        }
    }
    assert forall|k: K| t.contains(k) == (s.contains(k) || k == key) by {
        if t.contains(k) {
            let p = choose|p: int| 0 <= p < t.len() && t[p] == k;
            if p < i {
                assert(s[p] == k);
            } else if p > i {
                assert(s[p - 1] == k);
            }
        }
        if s.contains(k) {
            let p = choose|p: int| 0 <= p < s.len() && s[p] == k;
            if p < i {
                assert(t[p] == k);
            } else {
                assert(t[p + 1] == k);
            }
        }
        assert(t[i] == key);
    }
    assert(t.to_set() =~= s.to_set().insert(key));
}

/// Removing an element keeps a sequence sorted.
pub proof fn lemma_remove_sorted<K: Key>(s: Seq<K>, i: int)
    requires
        strictly_sorted(s),
        0 <= i < s.len(),
    ensures
        strictly_sorted(s.remove(i)),
        s.remove(i).to_set() == s.to_set().remove(s[i]),
{
    let t = s.remove(i);
    lemma_sorted_distinct(s);
    assert forall|p: int, q: int| 0 <= p < q < t.len() implies (#[trigger] t[p]).below(
        #[trigger] t[q],
    ) by {
        let a = if p < i { p } else { p + 1 };
        let b = if q < i { q } else { q + 1 };
        assert(t[p] == s[a] && t[q] == s[b]);
    }
    assert forall|k: K| t.contains(k) == (s.contains(k) && k != s[i]) by {
        if t.contains(k) {
            let p = choose|p: int| 0 <= p < t.len() && t[p] == k;
            if p < i {
                assert(s[p] == k);
            } else {
                assert(s[p + 1] == k);
            }
        }
        if s.contains(k) && k != s[i] {
            let p = choose|p: int| 0 <= p < s.len() && s[p] == k;
            if p < i {
                assert(t[p] == k);
            } else {
                assert(t[p - 1] == k);
            }
        }
    }
    assert(t.to_set() =~= s.to_set().remove(s[i]));
}

/// The elements of a finite set can be sorted.
pub proof fn lemma_ordered_finite<K: Key>(set: Set<K>)
    requires
        set.finite(),
    ensures
        strictly_sorted(ordered(set)),
        ordered(set).to_set() == set,
        forall|k: K| #[trigger] ordered(set).contains(k) == set.contains(k),
    decreases set.len(),
{
    if set.len() == 0 {
        let s: Seq<K> = seq![];
        assert(set =~= Set::empty());
        assert(strictly_sorted(s) && s.to_set() =~= set);
    } else {
        let key = set.choose();
        let rest = set.remove(key);
        lemma_ordered_finite(rest);
        let s = ordered(rest);
        assert(s.to_set().contains(key) == s.contains(key));
        let i = lemma_rank(s, key, s.len() as int);
        lemma_insert_sorted(s, i, key);
        assert(rest.insert(key) =~= set);
        assert(strictly_sorted(s.insert(i, key)) && s.insert(i, key).to_set() == set);
    }
    let t = ordered(set);
    assert forall|k: K| #[trigger] t.contains(k) == set.contains(k) by {
        assert(t.to_set().contains(k) == t.contains(k));
    }
}

/// Where a key belongs among the first `n` keys of a sorted sequence.
proof fn lemma_rank<K: Key>(s: Seq<K>, key: K, n: int) -> (i: int)
    requires
        strictly_sorted(s),
        0 <= n <= s.len(),
    ensures
        0 <= i <= n,
        forall|j: int| 0 <= j < i ==> (#[trigger] s[j]).below(key),
        forall|j: int| i <= j < n ==> !(#[trigger] s[j]).below(key),
    decreases n,
{
    if n == 0 {
        0
    } else if s[n - 1].below(key) {
        assert forall|j: int| 0 <= j < n implies (#[trigger] s[j]).below(key) by {
            if j < n - 1 {
                K::below_transitive(s[j], s[n - 1], key);
            }
        }
        n
    } else {
        lemma_rank(s, key, n - 1)
    }
}

} // verus!
