//! Ordered sets and maps, kept as sorted vectors.
use vstd::prelude::*;

use crate::keys::{
    lemma_insert_sorted, lemma_ordered, lemma_remove_sorted, lemma_sorted_distinct,
    lemma_sorted_unique, ordered, strictly_sorted, Key,
};

verus! {

/// A set of keys, kept in increasing order.
pub struct KeySet<K: Key> {
    items: Vec<K>,
}

impl<K: Key> View for KeySet<K> {
    type V = Set<K>;

    open spec fn view(&self) -> Set<K> {
        self.items().to_set()
    }
}

impl<K: Key> KeySet<K> {
    /// The keys of the set, in increasing order.
    pub closed spec fn items(&self) -> Seq<K> {
        self.items@
    }

    #[verifier::type_invariant]
    pub open spec fn well_formed(self) -> bool {
        strictly_sorted(self.items())
    }

    /// The empty set.
    pub fn new() -> (r: Self)
        ensures
            r@ == Set::<K>::empty(),
    {
        let r = KeySet { items: Vec::new() };
        assert(r.items@.to_set() =~= Set::<K>::empty());
        r
    }

    /// The keys as a sequence determined by the set alone.
    pub proof fn lemma_items(self)
        requires
            self.well_formed(),
        ensures
            self.items() == ordered(self@),
            self.items().no_duplicates(),
            self@.finite(),
            self@.len() == self.items().len(),
    {
        lemma_ordered(self.items());
        lemma_sorted_distinct(self.items());
        self.items().unique_seq_to_set();
        vstd::seq_lib::seq_to_set_is_finite(self.items());
    }

    /// The number of keys.
    pub fn len(&self) -> (r: usize)
        ensures
            r == self@.len(),
            r == self.items().len(),
            self@.finite(),
    {
        proof {
            use_type_invariant(self);
            self.lemma_items();
        }
        self.items.len()
    }

    pub fn is_empty(&self) -> (r: bool)
        ensures
            r == (self@.len() == 0),
            r == (self@ == Set::<K>::empty()),
    {
        proof {
            use_type_invariant(self);
            self.lemma_items();
            if self@ == Set::<K>::empty() {
                assert(self@.len() == 0);
            }
            if self.items@.len() == 0 {
                assert(self@ =~= Set::<K>::empty());
            }
        }
        self.items.len() == 0
    }

    /// The `i`-th smallest key.
    pub fn at(&self, i: usize) -> (r: K)
        requires
            i < self.items().len(),
        ensures
            r == self.items()[i as int],
            self@.contains(r),
    {
        proof {
            assert(self.items().contains(self.items()[i as int]));
        }
        self.items[i]
    }

    /// The number of keys below `key`, which is where `key` stands if it is in the set.
    pub(crate) fn rank(&self, key: &K) -> (r: usize)
        ensures
            r <= self.items().len(),
            forall|i: int| 0 <= i < r ==> (#[trigger] self.items()[i]).below(*key),
            forall|i: int| r <= i < self.items().len() ==> !(#[trigger] self.items()[i]).below(*key),
    {
        proof {
            use_type_invariant(self);
        }
        let mut low: usize = 0;
        let mut high: usize = self.items.len();
        while low < high
            invariant
                low <= high <= self.items().len(),
                self.well_formed(),
                forall|i: int| 0 <= i < low ==> (#[trigger] self.items()[i]).below(*key),
                forall|i: int|
                    high <= i < self.items().len() ==> !(#[trigger] self.items()[i]).below(*key),
            decreases high - low,
        {
            let mid: usize = low + (high - low) / 2;
            if self.items[mid].is_below(key) {
                proof {
                    assert forall|i: int| 0 <= i < mid + 1 implies (
                    #[trigger] self.items()[i]).below(*key) by {
                        if i < mid {
                            K::below_transitive(self.items()[i], self.items()[mid as int], *key);
                        }
                    }
                }
                low = mid + 1;
            } else {
                proof {
                    assert forall|i: int| mid <= i < self.items().len() implies !(
                    #[trigger] self.items()[i]).below(*key) by {
                        if mid < i && self.items()[i].below(*key) {
                            K::below_transitive(self.items()[mid as int], self.items()[i], *key);
                        }
                    }
                }
                high = mid;
            }
        }
        low
    }

    /// Where `key` stands, if it is in the set.
    pub fn position(&self, key: &K) -> (r: Option<usize>)
        ensures
            r is Some == self@.contains(*key),
            r matches Some(i) ==> i < self.items().len() && self.items()[i as int] == *key,
    {
        proof {
            use_type_invariant(self);
        }
        let i: usize = self.rank(key);
        if i < self.items.len() && self.items[i].same(key) {
            assert(self.items().contains(self.items()[i as int]));
            return Some(i);
        }
        proof {
            if self@.contains(*key) {
                let j = choose|j: int| 0 <= j < self.items().len() && self.items()[j] == *key;
                K::below_irreflexive(*key);
                assert(j >= i);
                if j > i {
                    assert(self.items()[i as int].below(self.items()[j]));
                }
            }
        }
        None
    }

    pub fn contains(&self, key: &K) -> (r: bool)
        ensures
            r == self@.contains(*key),
    {
        self.position(key).is_some()
    }

    /// Adds `key`; says whether it was new.
    pub fn insert(&mut self, key: K) -> (r: bool)
        ensures
            final(self)@ == old(self)@.insert(key),
            r == !old(self)@.contains(key),
    {
        proof {
            use_type_invariant(&*self);
        }
        if self.contains(&key) {
            assert(self@ =~= self@.insert(key));
            return false;
        }
        let i: usize = self.rank(&key);
        let ghost before = self.items();
        let mut items: Vec<K> = Vec::new();
        std::mem::swap(&mut items, &mut self.items);
        items.insert(i, key);
        proof {
            lemma_insert_sorted(before, i as int, key);
        }
        self.items = items;
        true
    }

    /// Removes `key`; says whether it was there.
    pub fn remove(&mut self, key: &K) -> (r: bool)
        ensures
            final(self)@ == old(self)@.remove(*key),
            r == old(self)@.contains(*key),
    {
        proof {
            use_type_invariant(&*self);
        }
        match self.position(key) {
            None => {
                assert(self@ =~= self@.remove(*key));
                false
            },
            Some(i) => {
                let ghost before = self.items();
                let mut items: Vec<K> = Vec::new();
                std::mem::swap(&mut items, &mut self.items);
                let _ = items.remove(i);
                proof {
                    lemma_remove_sorted(before, i as int);
                }
                self.items = items;
                true
            },
        }
    }

    /// Adds every key of `other`.
    pub fn extend(&mut self, other: &KeySet<K>)
        ensures
            final(self)@ == old(self)@.union(other@),
    {
        let n: usize = other.items.len();
        let ghost before = self@;
        let mut i: usize = 0;
        while i < n
            invariant
                i <= n,
                n == other.items().len(),
                self@ == before.union(other.items().take(i as int).to_set()),
            decreases n - i,
        {
            let key: K = other.items[i];
            proof {
                let taken = other.items().take(i as int);
                assert(other.items().take(i + 1) =~= taken.push(key));
                taken.lemma_push_to_set_commute(key);
                assert(before.union(taken.to_set()).insert(key) =~= before.union(
                    taken.push(key).to_set(),
                ));
            }
            let _ = self.insert(key);
            i = i + 1;
        }
        assert(other.items().take(n as int) =~= other.items());
        assert(before.union(other.items().take(0).to_set()) =~= before);
    }

    /// The set of the keys of a list.
    pub fn from_vec(keys: &Vec<K>) -> (r: Self)
        ensures
            r@ == keys@.to_set(),
    {
        let mut r: KeySet<K> = KeySet::new();
        let mut i: usize = 0;
        assert(keys@.take(0).to_set() =~= Set::<K>::empty());
        while i < keys.len()
            invariant
                i <= keys@.len(),
                r@ == keys@.take(i as int).to_set(),
            decreases keys@.len() - i,
        {
            let key: K = keys[i];
            proof {
                let taken = keys@.take(i as int);
                assert(keys@.take(i + 1) =~= taken.push(key));
                taken.lemma_push_to_set_commute(key);
            }
            let _ = r.insert(key);
            i = i + 1;
        }
        assert(keys@.take(i as int) =~= keys@);
        r
    }

    /// The keys, in increasing order.
    pub fn to_vec(&self) -> (r: Vec<K>)
        ensures
            r@ == ordered(self@),
            r@ == self.items(),
            r@.to_set() == self@,
            r@.no_duplicates(),
    {
        proof {
            use_type_invariant(self);
            self.lemma_items();
        }
        let mut r: Vec<K> = Vec::new();
        let mut i: usize = 0;
        while i < self.items.len()
            invariant
                i <= self.items().len(),
                r@ == self.items().take(i as int),
            decreases self.items().len() - i,
        {
            r.push(self.items[i]);
            i = i + 1;
            assert(self.items().take(i as int) =~= self.items().take(i - 1).push(
                self.items()[i - 1],
            ));
        }
        assert(self.items().take(i as int) =~= self.items());
        r
    }
}

impl<K: Key> Clone for KeySet<K> {
    fn clone(&self) -> (r: Self)
        ensures
            r@ == self@,
    {
        proof {
            use_type_invariant(self);
        }
        KeySet { items: self.to_vec() }
    }
}

/// A map from keys to values, kept in increasing order of the keys.
pub struct KeyMap<K: Key, V> {
    keys: KeySet<K>,
    values: Vec<V>,
}

impl<K: Key, V> View for KeyMap<K, V> {
    type V = Map<K, V>;

    open spec fn view(&self) -> Map<K, V> {
        Map::new(
            |k: K| self.keys().contains(k),
            |k: K| self.values()[self.keys().index_of(k)],
        )
    }
}

impl<K: Key, V> KeyMap<K, V> {
    /// The keys of the map, in increasing order.
    pub closed spec fn keys(&self) -> Seq<K> {
        self.keys.items()
    }

    /// The values, in the order of their keys.
    pub closed spec fn values(&self) -> Seq<V> {
        self.values@
    }

    #[verifier::type_invariant]
    pub open spec fn well_formed(self) -> bool {
        &&& strictly_sorted(self.keys())
        &&& self.keys().len() == self.values().len()
    }

    /// The keys in order are determined by the map's domain, and each stands with its value.
    pub proof fn lemma_entries(self)
        requires
            self.well_formed(),
        ensures
            self.keys() == ordered(self@.dom()),
            self.keys().no_duplicates(),
            self.keys().to_set() == self@.dom(),
            self@.dom().finite(),
            self@.len() == self.keys().len(),
            forall|i: int|
                0 <= i < self.keys().len() ==> self@.contains_key(#[trigger] self.keys()[i]) && self@[self.keys()[i]]
                    == self.values()[i],
    {
        let keys = self.keys();
        lemma_ordered(keys);
        lemma_sorted_distinct(keys);
        keys.unique_seq_to_set();
        vstd::seq_lib::seq_to_set_is_finite(keys);
        assert(keys.to_set() =~= self@.dom());
        assert forall|i: int| 0 <= i < keys.len() implies self@.contains_key(#[trigger] keys[i])
            && self@[keys[i]] == self.values()[i] by {
            assert(keys.contains(keys[i]));
            assert(keys.index_of(keys[i]) == i);
        }
    }

    /// The empty map.
    pub fn new() -> (r: Self)
        ensures
            r@ == Map::<K, V>::empty(),
    {
        let keys: KeySet<K> = KeySet::new();
        proof {
            use_type_invariant(&keys);
            keys.lemma_items();
        }
        let r = KeyMap { keys, values: Vec::new() };
        assert(r@.dom() =~= Set::<K>::empty());
        assert(r@ =~= Map::<K, V>::empty());
        r
    }

    /// The number of keys.
    pub fn len(&self) -> (r: usize)
        ensures
            r == self@.len(),
            r == self.keys().len(),
            self@.dom().finite(),
    {
        proof {
            use_type_invariant(self);
            self.lemma_entries();
        }
        self.values.len()
    }

    pub fn is_empty(&self) -> (r: bool)
        ensures
            r == (self@.len() == 0),
            r == (self@ == Map::<K, V>::empty()),
    {
        proof {
            use_type_invariant(self);
            self.lemma_entries();
            if self@ == Map::<K, V>::empty() {
                assert(self@.dom() =~= Set::<K>::empty());
            }
            if self.keys().len() == 0 {
                assert(self@ =~= Map::<K, V>::empty());
            }
        }
        self.values.len() == 0
    }

    /// The `i`-th smallest key.
    pub fn key_at(&self, i: usize) -> (r: K)
        requires
            i < self.keys().len(),
        ensures
            r == self.keys()[i as int],
            self@.contains_key(r),
    {
        proof {
            use_type_invariant(self);
            self.lemma_entries();
        }
        self.keys.at(i)
    }

    /// The value of the `i`-th smallest key.
    pub fn value_at(&self, i: usize) -> (r: &V)
        requires
            i < self.keys().len(),
        ensures
            *r == self.values()[i as int],
            *r == self@[self.keys()[i as int]],
    {
        proof {
            use_type_invariant(self);
            self.lemma_entries();
        }
        &self.values[i]
    }

    pub fn contains_key(&self, key: &K) -> (r: bool)
        ensures
            r == self@.contains_key(*key),
    {
        proof {
            use_type_invariant(self);
            self.lemma_entries();
        }
        self.keys.contains(key)
    }

    pub fn get(&self, key: &K) -> (r: Option<&V>)
        ensures
            r is Some == self@.contains_key(*key),
            r matches Some(v) ==> *v == self@[*key],
    {
        proof {
            use_type_invariant(self);
            self.lemma_entries();
        }
        match self.keys.position(key) {
            Some(i) => Some(&self.values[i]),
            None => None,
        }
    }

    /// Where `key` stands among the keys in increasing order, if it is one of them.
    pub fn position(&self, key: &K) -> (r: Option<usize>)
        ensures
            r is Some == self@.contains_key(*key),
            r matches Some(i) ==> i < self.keys().len() && self.keys()[i as int] == *key,
    {
        proof {
            use_type_invariant(self);
            self.lemma_entries();
        }
        self.keys.position(key)
    }

    /// The keys, in increasing order.
    pub fn key_list(&self) -> (r: Vec<K>)
        ensures
            r@ == self.keys(),
            r@ == ordered(self@.dom()),
            r@.to_set() == self@.dom(),
            r@.no_duplicates(),
            forall|k: K| #[trigger] r@.contains(k) == self@.contains_key(k),
    {
        proof {
            use_type_invariant(self);
            self.lemma_entries();
        }
        let r: Vec<K> = self.keys.to_vec();
        assert forall|k: K| #[trigger] r@.contains(k) == self@.contains_key(k) by {
            assert(r@.to_set().contains(k) == r@.contains(k));
        }
        r
    }

    /// Sets the value of `key`; gives back the value that it had.
    pub fn insert(&mut self, key: K, value: V) -> (r: Option<V>)
        ensures
            final(self)@ == old(self)@.insert(key, value),
            r == if old(self)@.contains_key(key) {
                Some(old(self)@[key])
            } else {
                None
            },
    {
        proof {
            use_type_invariant(&*self);
            self.lemma_entries();
        }
        let mut taken: KeyMap<K, V> = KeyMap::new();
        std::mem::swap(&mut taken, self);
        let ghost before = taken;
        let mut keys: KeySet<K> = taken.keys;
        let mut values: Vec<V> = taken.values;
        match keys.position(&key) {
            Some(i) => {
                values.push(value);
                let replaced: V = values.swap_remove(i);
                proof {
                    lemma_sorted_distinct(before.keys());
                    assert(values@ =~= before.values().update(i as int, value));
                }
                *self = KeyMap { keys, values };
                proof {
                    self.lemma_entries();
                    assert(self@.dom() =~= before@.insert(key, value).dom());
                    assert forall|k: K| self@.contains_key(k) implies #[trigger] self@[k]
                        == before@.insert(key, value)[k] by {
                        let j = choose|j: int| 0 <= j < self.keys().len() && self.keys()[j] == k;
                        assert(self@[self.keys()[j]] == self.values()[j]);
                        assert(before@[before.keys()[j]] == before.values()[j]);
                    }
                    assert(self@ =~= before@.insert(key, value));
                }
                Some(replaced)
            },
            None => {
                let i: usize = keys.rank(&key);
                let _ = keys.insert(key);
                values.insert(i, value);
                proof {
                    use_type_invariant(&keys);
                    lemma_insert_sorted(before.keys(), i as int, key);
                    lemma_sorted_unique(keys.items(), before.keys().insert(i as int, key));
                }
                *self = KeyMap { keys, values };
                proof {
                    self.lemma_entries();
                    assert(self@.dom() =~= before@.insert(key, value).dom());
                    assert forall|k: K| self@.contains_key(k) implies #[trigger] self@[k]
                        == before@.insert(key, value)[k] by {
                        let j = choose|j: int| 0 <= j < self.keys().len() && self.keys()[j] == k;
                        assert(self@[self.keys()[j]] == self.values()[j]);
                        if j < i {
                            assert(before@[before.keys()[j]] == before.values()[j]);
                        } else if j > i {
                            assert(before@[before.keys()[j - 1]] == before.values()[j - 1]);
                        }
                    }
                    assert(self@ =~= before@.insert(key, value));
                }
                None
            },
        }
    }

    /// Removes `key`; gives back the value that it had.
    pub fn remove(&mut self, key: &K) -> (r: Option<V>)
        ensures
            final(self)@ == old(self)@.remove(*key),
            r == if old(self)@.contains_key(*key) {
                Some(old(self)@[*key])
            } else {
                None
            },
    {
        proof {
            use_type_invariant(&*self);
            self.lemma_entries();
        }
        match self.keys.position(key) {
            None => {
                assert(self@ =~= self@.remove(*key));
                None
            },
            Some(i) => {
                let mut taken: KeyMap<K, V> = KeyMap::new();
                std::mem::swap(&mut taken, self);
                let ghost before = taken;
                let mut keys: KeySet<K> = taken.keys;
                let mut values: Vec<V> = taken.values;
                let _ = keys.remove(key);
                let removed: V = values.remove(i);
                proof {
                    use_type_invariant(&keys);
                    lemma_remove_sorted(before.keys(), i as int);
                    lemma_sorted_unique(keys.items(), before.keys().remove(i as int));
                }
                *self = KeyMap { keys, values };
                proof {
                    self.lemma_entries();
                    assert(self@.dom() =~= before@.remove(*key).dom());
                    assert forall|k: K| self@.contains_key(k) implies #[trigger] self@[k]
                        == before@.remove(*key)[k] by {
                        let j = choose|j: int| 0 <= j < self.keys().len() && self.keys()[j] == k;
                        assert(self@[self.keys()[j]] == self.values()[j]);
                        if j < i {
                            assert(before@[before.keys()[j]] == before.values()[j]);
                        } else {
                            assert(before@[before.keys()[j + 1]] == before.values()[j + 1]);
                        }
                    }
                    assert(self@ =~= before@.remove(*key));
                }
                Some(removed)
            },
        }
    }

    /// Removes every key of a list.
    pub fn remove_all(&mut self, keys: &Vec<K>)
        ensures
            final(self)@ == old(self)@.remove_keys(keys@.to_set()),
    {
        let ghost before = self@;
        let mut i: usize = 0;
        assert(before.remove_keys(keys@.take(0).to_set()) =~= before);
        while i < keys.len()
            invariant
                i <= keys@.len(),
                self@ == before.remove_keys(keys@.take(i as int).to_set()),
            decreases keys@.len() - i,
        {
            let ghost held = self@;
            let _ = self.remove(&keys[i]);
            proof {
                let taken = keys@.take(i as int);
                assert(keys@.take(i + 1) =~= taken.push(keys@[i as int]));
                taken.lemma_push_to_set_commute(keys@[i as int]);
                assert(held.remove(keys@[i as int]) =~= before.remove_keys(
                    keys@.take(i + 1).to_set(),
                ));
            }
            i = i + 1;
        }
        assert(keys@.take(i as int) =~= keys@);
    }
}

impl<K: Key, V: Copy> Clone for KeyMap<K, V> {
    fn clone(&self) -> (r: Self)
        ensures
            r@ == self@,
    {
        proof {
            use_type_invariant(self);
        }
        let mut values: Vec<V> = Vec::new();
        let mut i: usize = 0;
        while i < self.values.len()
            invariant
                i <= self.values().len(),
                values@ == self.values().take(i as int),
            decreases self.values().len() - i,
        {
            values.push(self.values[i]);
            i = i + 1;
            assert(values@ =~= self.values().take(i as int));
        }
        let keys: KeySet<K> = self.keys.clone();
        proof {
            assert(values@ =~= self.values());
            use_type_invariant(&keys);
            use_type_invariant(&self.keys);
            lemma_sorted_unique(keys.items(), self.keys.items());
        }
        KeyMap { keys, values }
    }
}

} // verus!
