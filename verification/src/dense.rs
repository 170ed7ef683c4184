//! Dense containers: the items lie side by side in insertion order, and a
//! hash index finds the position of a key.

use vstd::prelude::*;
use vstd::std_specs::hash::obeys_key_model;
use std::collections::HashMap;
use std::hash::Hash;

verus! {

/// The position of `key` in `keys`, where `keys` holds it.
pub open spec fn position<K>(keys: Seq<K>, key: K) -> int {
    choose|i: int| 0 <= i < keys.len() && keys[i] == key
}

/// In a sequence without repetitions each item has one position.
pub proof fn lemma_position<K>(keys: Seq<K>, i: int)
    requires
        keys.no_duplicates(),
        0 <= i < keys.len(),
    ensures
        position(keys, keys[i]) == i,
{
    let j = position(keys, keys[i]);
    assert(0 <= j < keys.len() && keys[j] == keys[i]);
}

/// Taking one item out of a sequence without repetitions leaves none.
pub proof fn lemma_remove_distinct<K>(keys: Seq<K>, i: int)
    requires
        keys.no_duplicates(),
        0 <= i < keys.len(),
    ensures
        keys.remove(i).no_duplicates(),
        !keys.remove(i).contains(keys[i]),
        forall|k: K| k != keys[i] ==> (#[trigger] keys.remove(i).contains(k) <==> keys.contains(k)),
{
    let rest = keys.remove(i);
    assert forall|a: int, b: int|
        0 <= a < rest.len() && 0 <= b < rest.len() && a != b implies rest[a] != rest[b] by {
        let a0 = if a < i { a } else { a + 1 };
        let b0 = if b < i { b } else { b + 1 };
        assert(rest[a] == keys[a0] && rest[b] == keys[b0]);
    }
    if rest.contains(keys[i]) {
        let a = choose|a: int| 0 <= a < rest.len() && rest[a] == keys[i];
        let a0 = if a < i { a } else { a + 1 };
        assert(rest[a] == keys[a0]);
    }
    assert forall|k: K| k != keys[i] implies (#[trigger] rest.contains(k) <==> keys.contains(
        k,
    )) by {
        if rest.contains(k) {
            let a = choose|a: int| 0 <= a < rest.len() && rest[a] == k;
            let a0 = if a < i { a } else { a + 1 };
            assert(keys[a0] == k);
        }
        if keys.contains(k) {
            let a0 = choose|a: int| 0 <= a < keys.len() && keys[a] == k;
            let a = if a0 < i { a0 } else { a0 - 1 };
            assert(rest[a] == k);
        }
    }
}

/// A set whose keys lie side by side in the order of insertion.
pub struct DenseSet<K: Copy + Hash + Eq> {
    keys: Vec<K>,
    map: HashMap<K, usize>,
}

impl<K: Copy + Hash + Eq> View for DenseSet<K> {
    type V = Seq<K>;

    /// The keys in their order.
    closed spec fn view(&self) -> Seq<K> {
        self.keys@
    }
}

impl<K: Copy + Hash + Eq> DenseSet<K> {
    /// The index holds each key at its position, and nothing else.
    pub closed spec fn wf(&self) -> bool {
        &&& obeys_key_model::<K>()
        &&& forall|i: int|
            0 <= i < self.keys@.len() ==> self.map@.contains_key(#[trigger] self.keys@[i])
                && self.map@[self.keys@[i]] == i
        &&& forall|k: K| #[trigger]
            self.map@.contains_key(k) ==> 0 <= self.map@[k] < self.keys@.len()
                && self.keys@[self.map@[k] as int] == k
    }

    /// A well-formed set holds no key twice.
    pub proof fn lemma_distinct(&self)
        requires
            self.wf(),
        ensures
            self@.no_duplicates(),
            obeys_key_model::<K>(),
    {
        assert forall|i: int, j: int|
            0 <= i < self.keys@.len() && 0 <= j < self.keys@.len() && i != j implies self.keys@[i]
            != self.keys@[j] by {
            assert(self.map@[self.keys@[i]] == i);
            assert(self.map@[self.keys@[j]] == j);
        }
    }

    pub fn new() -> (set: DenseSet<K>)
        requires
            obeys_key_model::<K>(),
        ensures
            set.wf(),
            set@ == Seq::<K>::empty(),
    {
        DenseSet { keys: Vec::new(), map: HashMap::new() }
    }

    /// The set of the keys of `keys`, in their order.
    fn from_keys(keys: Vec<K>) -> (set: DenseSet<K>)
        requires
            obeys_key_model::<K>(),
            keys@.no_duplicates(),
        ensures
            set.wf(),
            set@ == keys@,
    {
        let mut set = DenseSet { keys, map: HashMap::new() };
        set.reindex();
        set
    }

    /// Builds the index anew from the keys.
    fn reindex(&mut self)
        requires
            obeys_key_model::<K>(),
            old(self).keys@.no_duplicates(),
        ensures
            final(self).wf(),
            final(self)@ == old(self)@,
    {
        self.map.clear();
        let mut i: usize = 0;
        while i < self.keys.len()
            invariant
                obeys_key_model::<K>(),
                i <= self.keys@.len(),
                self.keys@ == old(self).keys@,
                self.keys@.no_duplicates(),
                forall|j: int|
                    0 <= j < i ==> self.map@.contains_key(#[trigger] self.keys@[j])
                        && self.map@[self.keys@[j]] == j,
                forall|k: K| #[trigger]
                    self.map@.contains_key(k) ==> 0 <= self.map@[k] < i
                        && self.keys@[self.map@[k] as int] == k,
            decreases self.keys@.len() - i,
        {
            let key = self.keys[i];
            self.map.insert(key, i);
            i += 1;
        }
    }

    /// The position of `key`, if the set holds it.
    pub fn index(&self, key: &K) -> (at: Option<usize>)
        requires
            self.wf(),
        ensures
            match at {
                Some(i) => i < self@.len() && self@[i as int] == *key,
                None => !self@.contains(*key),
            },
    {
        match self.map.get(key) {
            Some(i) => Some(*i),
            None => None,
        }
    }

    /// Adds `key` at the end unless the set holds it; returns its position.
    pub fn insert(&mut self, key: K) -> (at: usize)
        requires
            old(self).wf(),
        ensures
            final(self).wf(),
            final(self)@ == if old(self)@.contains(key) {
                old(self)@
            } else {
                old(self)@.push(key)
            },
            at < final(self)@.len(),
            final(self)@[at as int] == key,
    {
        match self.index(&key) {
            Some(at) => at,
            None => {
                let at = self.keys.len();
                self.keys.push(key);
                self.map.insert(key, at);
                assert forall|k: K| #[trigger] self.map@.contains_key(k) implies 0
                    <= self.map@[k] < self.keys@.len() && self.keys@[self.map@[k] as int]
                    == k by {
                    if k != key {
                        assert(old(self).map@.contains_key(k));
                    }
                }
                at
            },
        }
    }

    pub fn contains(&self, key: &K) -> (found: bool)
        requires
            self.wf(),
        ensures
            found == self@.contains(*key),
    {
        self.map.contains_key(key)
    }

    /// Takes `key` out and keeps the order of the others.
    pub fn remove(&mut self, key: &K) -> (removed: Option<K>)
        requires
            old(self).wf(),
        ensures
            final(self).wf(),
            match removed {
                Some(k) => k == *key && old(self)@.contains(k) && final(self)@ == old(self)@.remove(
                    position(old(self)@, k),
                ),
                None => !old(self)@.contains(*key) && final(self)@ == old(self)@,
            },
            !final(self)@.contains(*key),
    {
        proof {
            self.lemma_distinct();
        }
        match self.index(key) {
            Some(at) => {
                proof {
                    lemma_position(self.keys@, at as int);
                    lemma_remove_distinct(self.keys@, at as int);
                }
                let removed = self.keys.remove(at);
                self.reindex();
                Some(removed)
            },
            None => None,
        }
    }

    /// Takes `key` out and puts the last key in its place.
    pub fn swap_remove(&mut self, key: &K) -> (removed: Option<K>)
        requires
            old(self).wf(),
        ensures
            final(self).wf(),
            match removed {
                Some(k) => k == *key && old(self)@.contains(k) && final(self)@ == old(self)@.update(
                    position(old(self)@, k),
                    old(self)@.last(),
                ).drop_last(),
                None => !old(self)@.contains(*key) && final(self)@ == old(self)@,
            },
            !final(self)@.contains(*key),
    {
        proof {
            self.lemma_distinct();
        }
        match self.index(key) {
            Some(at) => {
                proof {
                    lemma_position(self.keys@, at as int);
                }
                let removed = self.keys.swap_remove(at);
                self.map.remove(key);
                if at < self.keys.len() {
                    let moved = self.keys[at];
                    self.map.insert(moved, at);
                }
                proof {
                    let before = old(self).keys@;
                    let after = self.keys@;
                    assert(after == before.update(at as int, before.last()).drop_last());
                    assert forall|i: int| 0 <= i < after.len() implies self.map@.contains_key(
                        #[trigger] after[i],
                    ) && self.map@[after[i]] == i by {
                        if i != at {
                            assert(after[i] == before[i]);
                            assert(old(self).map@[before[i]] == i);
                        }
                    }
                    assert forall|k: K| #[trigger] self.map@.contains_key(k) implies 0
                        <= self.map@[k] < after.len() && after[self.map@[k] as int] == k by {
                        if at < after.len() && k == after[at as int] {
                        } else {
                            assert(old(self).map@.contains_key(k));
                            assert(old(self).map@[k] != before.len() - 1);
                        }
                    }
                    if after.contains(*key) {
                        let i = choose|i: int| 0 <= i < after.len() && after[i] == *key;
                        assert(self.map@.contains_key(after[i]));
                    }
                }
                Some(removed)
            },
            None => None,
        }
    }

    /// Keeps the keys of which `keep` says so, in their order.
    pub fn retain<F: Fn(&K) -> bool>(&mut self, keep: F)
        requires
            old(self).wf(),
            forall|k: K| old(self)@.contains(k) ==> call_requires(keep, (&k,)),
        ensures
            final(self).wf(),
            forall|k: K| #[trigger]
                final(self)@.contains(k) ==> old(self)@.contains(k) && call_ensures(
                    keep,
                    (&k,),
                    true,
                ),
            forall|k: K|
                old(self)@.contains(k) && !(#[trigger] final(self)@.contains(k)) ==> call_ensures(
                    keep,
                    (&k,),
                    false,
                ),
            forall|a: int, b: int|
                0 <= a < b < final(self)@.len() ==> position(old(self)@, final(self)@[a])
                    < position(old(self)@, final(self)@[b]),
    {
        proof {
            self.lemma_distinct();
        }
        let mut kept: Vec<K> = Vec::new();
        let mut i: usize = 0;
        while i < self.keys.len()
            invariant
                i <= self.keys@.len(),
                self.keys@ == old(self).keys@,
                self.keys@.no_duplicates(),
                forall|k: K| self.keys@.contains(k) ==> call_requires(keep, (&k,)),
                kept@.no_duplicates(),
                forall|a: int| 0 <= a < kept@.len() ==> position(self.keys@, kept@[a]) < i,
                forall|a: int, b: int|
                    0 <= a < b < kept@.len() ==> position(self.keys@, kept@[a]) < position(
                        self.keys@,
                        kept@[b],
                    ),
                forall|k: K| #[trigger]
                    kept@.contains(k) ==> self.keys@.take(i as int).contains(k) && call_ensures(
                        keep,
                        (&k,),
                        true,
                    ),
                forall|k: K|
                    self.keys@.take(i as int).contains(k) && !(#[trigger] kept@.contains(k))
                        ==> call_ensures(keep, (&k,), false),
            decreases self.keys@.len() - i,
        {
            let key = self.keys[i];
            assert(self.keys@.contains(key));
            let ghost before = kept@;
            let ghost seen = self.keys@.take(i as int);
            let ghost next = self.keys@.take(i + 1);
            let verdict = keep(&key);
            proof {
                lemma_position(self.keys@, i as int);
                assert(next == seen.push(key));
                assert(!seen.contains(key)) by {
                    if seen.contains(key) {
                        let j = choose|j: int| 0 <= j < seen.len() && seen[j] == key;
                        assert(self.keys@[j] == self.keys@[i as int]);
                    }
                }
                assert forall|k: K| #[trigger] next.contains(k) <==> seen.contains(k) || k
                    == key by {
                    if seen.contains(k) {
                        let j = choose|j: int| 0 <= j < seen.len() && seen[j] == k;
                        assert(next[j] == k);
                    }
                    if k == key {
                        assert(next[i as int] == k);
                    }
                }
            }
            if verdict {
                kept.push(key);
                proof {
                    assert(!before.contains(key));
                    assert forall|a: int, b: int|
                        0 <= a < kept@.len() && 0 <= b < kept@.len() && a != b implies kept@[a]
                        != kept@[b] by {
                        if a < before.len() && b < before.len() {
                        } else if a < before.len() {
                            assert(before.contains(kept@[a]));
                        } else {
                            assert(before.contains(kept@[b]));
                        }
                    }
                    assert forall|k: K| #[trigger] kept@.contains(k) <==> before.contains(k) || k
                        == key by {
                        if before.contains(k) {
                            let j = choose|j: int| 0 <= j < before.len() && before[j] == k;
                            assert(kept@[j] == k);
                        }
                        if k == key {
                            assert(kept@[before.len() as int] == k);
                        }
                    }
                }
            }
            i += 1;
        }
        proof {
            assert(self.keys@.take(self.keys@.len() as int) == self.keys@);
        }
        self.keys = kept;
        self.reindex();
    }

    /// Empties the set and hands out its keys in their order.
    pub fn drain(&mut self) -> (keys: Vec<K>)
        requires
            old(self).wf(),
        ensures
            final(self).wf(),
            final(self)@ == Seq::<K>::empty(),
            keys@ == old(self)@,
    {
        self.map.clear();
        let mut keys: Vec<K> = Vec::new();
        std::mem::swap(&mut keys, &mut self.keys);
        keys
    }

    /// The keys in their order.
    pub fn iter(&self) -> (keys: &[K])
        ensures
            keys@ == self@,
    {
        self.keys.as_slice()
    }

    pub fn len(&self) -> (len: usize)
        ensures
            len == self@.len(),
    {
        self.keys.len()
    }

    pub fn is_empty(&self) -> (empty: bool)
        ensures
            empty == (self@.len() == 0),
    {
        self.keys.len() == 0
    }

    pub fn clear(&mut self)
        requires
            old(self).wf(),
        ensures
            final(self).wf(),
            final(self)@ == Seq::<K>::empty(),
    {
        self.map.clear();
        self.keys.clear();
    }
}

/// The map that keys and values lying side by side stand for.
pub open spec fn entries<K, V>(keys: Seq<K>, values: Seq<V>) -> Map<K, V> {
    Map::new(|k: K| keys.contains(k), |k: K| values[position(keys, k)])
}

/// A map whose entries lie side by side in the order of insertion.
pub struct DenseMap<K: Copy + Hash + Eq, V> {
    keys: DenseSet<K>,
    values: Vec<V>,
}

impl<K: Copy + Hash + Eq, V> View for DenseMap<K, V> {
    type V = Map<K, V>;

    closed spec fn view(&self) -> Map<K, V> {
        entries(self.keys@, self.values@)
    }
}

impl<K: Copy + Hash + Eq, V> DenseMap<K, V> {
    /// The keys in their order.
    pub closed spec fn order(&self) -> Seq<K> {
        self.keys@
    }

    /// The values in the order of their keys.
    pub closed spec fn stored(&self) -> Seq<V> {
        self.values@
    }

    /// Each key has one value, and the index of the keys is sound.
    pub closed spec fn wf(&self) -> bool {
        self.keys.wf() && self.keys@.len() == self.values@.len()
    }

    /// The view is the keys with the values at the same positions, and no
    /// key occurs twice.
    pub proof fn lemma_view(&self)
        requires
            self.wf(),
        ensures
            self@ == entries(self.order(), self.stored()),
            self.order().no_duplicates(),
            self.order().len() == self.stored().len(),
            obeys_key_model::<K>(),
            forall|i: int|
                0 <= i < self.order().len() ==> self@.contains_key(#[trigger] self.order()[i])
                    && self@[self.order()[i]] == self.stored()[i],
            forall|k: K| self@.contains_key(k) <==> self.order().contains(k),
    {
        self.keys.lemma_distinct();
        assert forall|i: int| 0 <= i < self.order().len() implies self@.contains_key(
            #[trigger] self.order()[i],
        ) && self@[self.order()[i]] == self.stored()[i] by {
            lemma_position(self.keys@, i);
        }
    }

    pub fn new() -> (map: DenseMap<K, V>)
        requires
            obeys_key_model::<K>(),
        ensures
            map.wf(),
            map@ == Map::<K, V>::empty(),
            map.order() == Seq::<K>::empty(),
    {
        let map = DenseMap { keys: DenseSet::new(), values: Vec::new() };
        assert(map@ =~= Map::<K, V>::empty());
        map
    }

    pub fn len(&self) -> (len: usize)
        requires
            self.wf(),
        ensures
            len == self.order().len(),
    {
        self.values.len()
    }

    /// Puts `value` under `key`: in place of the old value where the key is
    /// known, at the end where it is new.
    pub fn insert(&mut self, key: K, value: V)
        requires
            old(self).wf(),
        ensures
            final(self).wf(),
            final(self)@ == old(self)@.insert(key, value),
            final(self).order() == if old(self)@.contains_key(key) {
                old(self).order()
            } else {
                old(self).order().push(key)
            },
    {
        proof {
            self.lemma_view();
        }
        match self.keys.index(&key) {
            Some(at) => {
                self.values[at] = value;
                proof {
                    lemma_position(self.keys@, at as int);
                    assert(self@ =~= old(self)@.insert(key, value)) by {
                        assert forall|k: K| self@.contains_key(k) implies #[trigger] self@[k]
                            == old(self)@.insert(key, value)[k] by {
                            if k != key {
                                assert(position(self.keys@, k) != at);
                            }
                        }
                    }
                }
            },
            None => {
                let ghost keys = self.keys@;
                self.keys.insert(key);
                self.values.push(value);
                proof {
                    self.keys.lemma_distinct();
                    let after = self.keys@;
                    assert(after == keys.push(key));
                    assert forall|k: K| #[trigger] after.contains(k) <==> keys.contains(k) || k
                        == key by {
                        if keys.contains(k) {
                            let j = choose|j: int| 0 <= j < keys.len() && keys[j] == k;
                            assert(after[j] == k);
                        }
                        if k == key {
                            assert(after[keys.len() as int] == k);
                        }
                    }
                    assert(self@ =~= old(self)@.insert(key, value)) by {
                        assert forall|k: K| self@.contains_key(k) implies #[trigger] self@[k]
                            == old(self)@.insert(key, value)[k] by {
                            if k == key {
                                lemma_position(after, keys.len() as int);
                            } else {
                                let j = position(keys, k);
                                assert(after[j] == k);
                                lemma_position(after, j);
                            }
                        }
                    }
                }
            },
        }
    }

    pub fn get(&self, key: &K) -> (value: Option<&V>)
        requires
            self.wf(),
        ensures
            match value {
                Some(v) => self@.contains_key(*key) && *v == self@[*key],
                None => !self@.contains_key(*key),
            },
    {
        proof {
            self.lemma_view();
        }
        match self.keys.index(key) {
            Some(at) => {
                proof {
                    lemma_position(self.keys@, at as int);
                }
                Some(&self.values[at])
            },
            None => None,
        }
    }

    /// The value under `key`, to be changed in place.
    pub fn get_mut(&mut self, key: &K) -> (value: Option<&mut V>)
        requires
            old(self).wf(),
        ensures
            final(self).wf(),
            final(self).order() == old(self).order(),
            match value {
                Some(v) => old(self)@.contains_key(*key) && *v == old(self)@[*key]
                    && final(self)@ == old(self)@.insert(*key, *final(v)),
                None => !old(self)@.contains_key(*key) && final(self)@ == old(self)@,
            },
    {
        proof {
            self.lemma_view();
        }
        match self.keys.index(key) {
            Some(at) => {
                proof {
                    lemma_position(self.keys@, at as int);
                }
                let ghost keys = self.keys@;
                let ghost values = self.values@;
                let value = &mut self.values[at];
                proof {
                    let changed = values.update(at as int, *final(value));
                    assert(entries(keys, changed) =~= entries(keys, values).insert(
                        *key,
                        *final(value),
                    )) by {
                        assert forall|k: K| keys.contains(k) implies #[trigger] entries(
                            keys,
                            changed,
                        )[k] == entries(keys, values).insert(*key, *final(value))[k] by {
                            if k != *key {
                                assert(position(keys, k) != at);
                            }
                        }
                    }
                }
                Some(value)
            },
            None => None,
        }
    }

    pub fn contains_key(&self, key: &K) -> (found: bool)
        requires
            self.wf(),
        ensures
            found == self@.contains_key(*key),
    {
        self.keys.contains(key)
    }

    /// Takes the entry of `key` out and keeps the order of the others.
    pub fn remove(&mut self, key: &K) -> (value: Option<V>)
        requires
            old(self).wf(),
        ensures
            final(self).wf(),
            final(self)@ == old(self)@.remove(*key),
            value == if old(self)@.contains_key(*key) {
                Some(old(self)@[*key])
            } else {
                None
            },
            final(self).order() == if old(self)@.contains_key(*key) {
                old(self).order().remove(position(old(self).order(), *key))
            } else {
                old(self).order()
            },
    {
        proof {
            self.lemma_view();
        }
        match self.keys.index(key) {
            Some(at) => {
                let ghost keys = self.keys@;
                let ghost values = self.values@;
                proof {
                    lemma_position(keys, at as int);
                    lemma_remove_distinct(keys, at as int);
                }
                self.keys.remove(key);
                let value = self.values.remove(at);
                proof {
                    let after = self.keys@;
                    assert(self@ =~= old(self)@.remove(*key)) by {
                        assert forall|k: K| self@.contains_key(k) implies #[trigger] self@[k]
                            == old(self)@[k] by {
                            let j = position(after, k);
                            let j0 = if j < at { j } else { j + 1 };
                            assert(keys[j0] == k);
                            lemma_position(keys, j0);
                        }
                    }
                }
                Some(value)
            },
            None => {
                assert(self@ =~= old(self)@.remove(*key));
                None
            },
        }
    }

    /// Takes the entry of `key` out and puts the last entry in its place.
    pub fn swap_remove(&mut self, key: &K) -> (value: Option<V>)
        requires
            old(self).wf(),
        ensures
            final(self).wf(),
            final(self)@ == old(self)@.remove(*key),
            value == if old(self)@.contains_key(*key) {
                Some(old(self)@[*key])
            } else {
                None
            },
            final(self).order() == if old(self)@.contains_key(*key) {
                old(self).order().update(
                    position(old(self).order(), *key),
                    old(self).order().last(),
                ).drop_last()
            } else {
                old(self).order()
            },
    {
        proof {
            self.lemma_view();
        }
        match self.keys.index(key) {
            Some(at) => {
                let ghost keys = self.keys@;
                let ghost values = self.values@;
                proof {
                    lemma_position(keys, at as int);
                }
                self.keys.swap_remove(key);
                let value = self.values.swap_remove(at);
                proof {
                    self.keys.lemma_distinct();
                    let after = self.keys@;
                    assert(self@ =~= old(self)@.remove(*key)) by {
                        assert forall|k: K| self@.contains_key(k) implies old(self)@.contains_key(
                            k,
                        ) && #[trigger] self@[k] == old(self)@[k] by {
                            let j = position(after, k);
                            let j0 = if j == at { keys.len() - 1 } else { j };
                            assert(keys[j0] == k);
                            lemma_position(keys, j0);
                        }
                        assert forall|k: K|
                            old(self)@.contains_key(k) && k != *key implies self@.contains_key(
                            k,
                        ) by {
                            let j0 = position(keys, k);
                            let j = if j0 == keys.len() - 1 { at as int } else { j0 };
                            assert(after[j] == k);
                        }
                    }
                }
                Some(value)
            },
            None => {
                assert(self@ =~= old(self)@.remove(*key));
                None
            },
        }
    }

    /// Takes the last entry out.
    pub fn pop(&mut self) -> (entry: Option<(K, V)>)
        requires
            old(self).wf(),
        ensures
            final(self).wf(),
            match entry {
                Some((key, value)) => {
                    &&& old(self).order().len() > 0
                    &&& key == old(self).order().last()
                    &&& old(self)@.contains_key(key)
                    &&& value == old(self)@[key]
                    &&& final(self)@ == old(self)@.remove(key)
                    &&& final(self).order() == old(self).order().drop_last()
                },
                None => {
                    &&& old(self).order().len() == 0
                    &&& final(self)@ == old(self)@
                    &&& final(self).order() == old(self).order()
                },
            },
    {
        proof {
            self.lemma_view();
        }
        let len = self.values.len();
        if len == 0 {
            return None;
        }
        let key = self.keys.iter()[len - 1];
        proof {
            lemma_position(self.keys@, len - 1);
            assert(self.keys@.contains(key));
            assert(self.keys@.update(len - 1, self.keys@.last()).drop_last()
                =~= self.keys@.drop_last());
        }
        match self.swap_remove(&key) {
            Some(value) => Some((key, value)),
            None => None,
        }
    }

    /// The keys in their order.
    pub fn keys(&self) -> (keys: &[K])
        ensures
            keys@ == self.order(),
    {
        self.keys.iter()
    }

    /// The values in the order of their keys.
    pub fn values(&self) -> (values: &[V])
        ensures
            values@ == self.stored(),
    {
        self.values.as_slice()
    }

    /// Keeps the entries of which `keep` says so, in their order.
    pub fn retain<F: Fn(&K, &V) -> bool>(&mut self, keep: F)
        requires
            old(self).wf(),
            forall|k: K| old(self)@.contains_key(k) ==> call_requires(keep, (&k, &old(self)@[k])),
        ensures
            final(self).wf(),
            forall|k: K| #[trigger]
                final(self)@.contains_key(k) ==> old(self)@.contains_key(k) && final(self)@[k]
                    == old(self)@[k] && call_ensures(keep, (&k, &old(self)@[k]), true),
            forall|k: K|
                old(self)@.contains_key(k) && !(#[trigger] final(self)@.contains_key(k))
                    ==> call_ensures(keep, (&k, &old(self)@[k]), false),
            forall|a: int, b: int|
                0 <= a < b < final(self).order().len() ==> position(
                    old(self).order(),
                    final(self).order()[a],
                ) < position(old(self).order(), final(self).order()[b]),
    {
        proof {
            self.lemma_view();
        }
        let ghost old_keys = self.keys@;
        let ghost old_values = self.values@;
        let ghost mut seen: int = 0;
        let mut keys = self.keys.drain();
        let mut i: usize = 0;
        while i < keys.len()
            invariant
                obeys_key_model::<K>(),
                old_keys == old(self).keys@,
                old_values == old(self).values@,
                old_keys.no_duplicates(),
                old_keys.len() == old_values.len(),
                forall|k: K|
                    old_keys.contains(k) ==> call_requires(
                        keep,
                        (&k, &old_values[position(old_keys, k)]),
                    ),
                keys@.len() == self.values@.len(),
                i <= keys@.len(),
                i <= seen <= old_keys.len(),
                seen + (keys@.len() - i) == old_keys.len(),
                keys@.skip(i as int) == old_keys.skip(seen),
                self.values@.skip(i as int) == old_values.skip(seen),
                keys@.no_duplicates(),
                forall|a: int| 0 <= a < i ==> position(old_keys, #[trigger] keys@[a]) < seen,
                forall|a: int, b: int|
                    0 <= a < b < i ==> position(old_keys, keys@[a]) < position(
                        old_keys,
                        keys@[b],
                    ),
                forall|j: int|
                    0 <= j < i ==> old_keys.contains(#[trigger] keys@[j]) && self.values@[j]
                        == old_values[position(old_keys, keys@[j])] && call_ensures(
                        keep,
                        (&keys@[j], &self.values@[j]),
                        true,
                    ),
                forall|m: int|
                    0 <= m < seen ==> keys@.take(i as int).contains(#[trigger] old_keys[m])
                        || call_ensures(keep, (&old_keys[m], &old_values[m]), false),
            decreases keys@.len() - i,
        {
            let ghost before_keys = keys@;
            let ghost before_values = self.values@;
            proof {
                assert(keys@.skip(i as int)[0] == old_keys.skip(seen)[0]);
                assert(self.values@.skip(i as int)[0] == old_values.skip(seen)[0]);
                lemma_position(old_keys, seen);
                assert(old_keys.contains(old_keys[seen]));
            }
            let verdict = keep(&keys[i], &self.values[i]);
            if verdict {
                proof {
                    assert(before_keys.skip(i + 1) == before_keys.skip(i as int).skip(1));
                    assert(before_values.skip(i + 1) == before_values.skip(i as int).skip(1));
                    assert(old_keys.skip(seen + 1) == old_keys.skip(seen).skip(1));
                    assert(old_values.skip(seen + 1) == old_values.skip(seen).skip(1));
                    assert forall|m: int| 0 <= m < seen + 1 implies before_keys.take(
                        i + 1,
                    ).contains(#[trigger] old_keys[m]) || call_ensures(
                        keep,
                        (&old_keys[m], &old_values[m]),
                        false,
                    ) by {
                        if m == seen {
                            assert(before_keys.take(i + 1)[i as int] == old_keys[m]);
                        } else if before_keys.take(i as int).contains(old_keys[m]) {
                            let j = choose|j: int|
                                0 <= j < i && before_keys.take(i as int)[j] == old_keys[m];
                            assert(before_keys.take(i + 1)[j] == old_keys[m]);
                        }
                    }
                    seen = seen + 1;
                }
                i += 1;
            } else {
                proof {
                    lemma_remove_distinct(before_keys, i as int);
                }
                keys.remove(i);
                self.values.remove(i);
                proof {
                    assert(keys@.skip(i as int) == before_keys.skip(i as int).skip(1));
                    assert(self.values@.skip(i as int) == before_values.skip(i as int).skip(1));
                    assert(old_keys.skip(seen + 1) == old_keys.skip(seen).skip(1));
                    assert(old_values.skip(seen + 1) == old_values.skip(seen).skip(1));
                    assert(keys@.take(i as int) == before_keys.take(i as int));
                    seen = seen + 1;
                }
            }
        }
        proof {
            assert(keys@.take(keys@.len() as int) == keys@);
        }
        self.keys = DenseSet::from_keys(keys);
        proof {
            let keys = self.keys@;
            let values = self.values@;
            assert forall|k: K| #[trigger] self@.contains_key(k) implies old(self)@.contains_key(k)
                && self@[k] == old(self)@[k] && call_ensures(keep, (&k, &old(self)@[k]), true) by {
                let j = position(keys, k);
                assert(keys[j] == k);
            }
            assert forall|k: K|
                old(self)@.contains_key(k) && !(#[trigger] self@.contains_key(
                    k,
                )) implies call_ensures(
                keep,
                (&k, &old(self)@[k]),
                false,
            ) by {
                let m = position(old_keys, k);
                assert(old_keys[m] == k);
            }
        }
    }

    /// The entries in their order.
    pub fn iter(&self) -> (pairs: Vec<(K, &V)>)
        requires
            self.wf(),
        ensures
            pairs@.len() == self.order().len(),
            forall|i: int|
                0 <= i < pairs@.len() ==> (#[trigger] pairs@[i]).0 == self.order()[i]
                    && *pairs@[i].1 == self@[self.order()[i]],
    {
        proof {
            self.lemma_view();
        }
        let mut pairs: Vec<(K, &V)> = Vec::new();
        let mut i: usize = 0;
        while i < self.values.len()
            invariant
                self.wf(),
                i <= self.values@.len(),
                self.values@.len() == self.keys@.len(),
                pairs@.len() == i,
                forall|j: int|
                    0 <= j < i ==> (#[trigger] pairs@[j]).0 == self.keys@[j] && *pairs@[j].1
                        == self.values@[j],
            decreases self.values@.len() - i,
        {
            let key = self.keys.iter()[i];
            pairs.push((key, &self.values[i]));
            i += 1;
        }
        pairs
    }

    pub fn clear(&mut self)
        requires
            old(self).wf(),
        ensures
            final(self).wf(),
            final(self)@ == Map::<K, V>::empty(),
            final(self).order() == Seq::<K>::empty(),
    {
        self.keys.clear();
        self.values.clear();
        assert(self@ =~= Map::<K, V>::empty());
    }
}

} // verus!
