//! A small map that keeps its entries in a vector, for key types that offer
//! nothing but an equality test.

use vstd::prelude::*;

verus! {

/// A key whose executable equality test agrees with equality in
/// specifications.
pub trait MapKey: Copy {
    fn same_key(&self, other: &Self) -> (r: bool)
        ensures
            r == (*self == *other),
    ;
}

/// A finite map from `K` to `V`. Its view is a `Map<K, V>`.
#[derive(Debug)]
pub struct VecMap<K, V> {
    entries: Vec<(K, V)>,
}

/// Some entry of `s` has key `k`.
pub open spec fn has_key<K, V>(s: Seq<(K, V)>, k: K) -> bool {
    exists|i: int| 0 <= i < s.len() && (#[trigger] s[i]).0 == k
}

/// A position at which `s` holds key `k`, if there is one.
pub open spec fn index_of<K, V>(s: Seq<(K, V)>, k: K) -> int {
    choose|i: int| 0 <= i < s.len() && (#[trigger] s[i]).0 == k
}

/// No key occurs twice in `s`.
pub open spec fn distinct_keys<K, V>(s: Seq<(K, V)>) -> bool {
    forall|i: int, j: int|
        0 <= i < j < s.len() ==> (#[trigger] s[i]).0 != (#[trigger] s[j]).0
}

/// The map that the entries `s` stand for.
pub open spec fn as_map<K, V>(s: Seq<(K, V)>) -> Map<K, V> {
    Map::new(|k: K| has_key(s, k), |k: K| s[index_of(s, k)].1)
}

/// With distinct keys, each entry is what the map holds under its key.
pub proof fn lemma_as_map_entry<K, V>(s: Seq<(K, V)>, i: int)
    requires
        distinct_keys(s),
        0 <= i < s.len(),
    ensures
        as_map(s).contains_key(s[i].0),
        as_map(s)[s[i].0] == s[i].1,
        index_of(s, s[i].0) == i,
{
    let k = s[i].0;
    assert(has_key(s, k));
    let j = index_of(s, k);
    assert(0 <= j < s.len() && s[j].0 == k);
    if i < j {
        assert(s[i].0 != s[j].0);
    } else if j < i {
        assert(s[j].0 != s[i].0);
    }
}

/// With distinct keys, the map has as many keys as there are entries.
pub proof fn lemma_distinct_keys_count<K, V>(s: Seq<(K, V)>)
    requires
        distinct_keys(s),
    ensures
        as_map(s).dom().finite(),
        as_map(s).dom().len() == s.len(),
    decreases s.len(),
{
    if s.len() == 0 {
        assert(as_map(s).dom() =~= Set::<K>::empty());
    } else {
        let t = s.drop_last();
        let k = s.last().0;
        assert forall|i: int, j: int| 0 <= i < j < t.len() implies (#[trigger] t[i]).0 != (
        #[trigger] t[j]).0 by {
            assert(s[i].0 != s[j].0);
        }
        lemma_distinct_keys_count(t);
        assert(!has_key(t, k)) by {
            if has_key(t, k) {
                let j = index_of(t, k);
                assert(s[j].0 != s[s.len() - 1].0);
            }
        }
        assert forall|key: K| has_key(s, key) <==> (key == k || has_key(t, key)) by {
            if has_key(s, key) {
                let j = index_of(s, key);
                if j < t.len() {
                    assert(t[j].0 == key);
                }
            }
            if has_key(t, key) {
                let j = index_of(t, key);
                assert(s[j].0 == key);
            }
            if key == k {
                assert(s[s.len() - 1].0 == key);
            }
        }
        assert(as_map(s).dom() =~= as_map(t).dom().insert(k));
    }
}

impl<K, V> View for VecMap<K, V> {
    type V = Map<K, V>;

    closed spec fn view(&self) -> Map<K, V> {
        as_map(self.entries@)
    }
}

impl<K, V> VecMap<K, V> {
    #[verifier::type_invariant]
    spec fn keys_are_distinct(self) -> bool {
        distinct_keys(self.entries@)
    }
}

impl<K: MapKey, V: Copy> VecMap<K, V> {
    /// An empty map.
    pub fn new() -> (m: Self)
        ensures
            m@ == Map::<K, V>::empty(),
    {
        let m = VecMap { entries: Vec::new() };
        assert(m@ =~= Map::<K, V>::empty());
        m
    }

    /// The position of `key` among the entries.
    fn find(entries: &Vec<(K, V)>, key: &K) -> (r: Option<usize>)
        ensures
            match r {
                Some(i) => i < entries.len() && entries@[i as int].0 == *key,
                None => !has_key(entries@, *key),
            },
    {
        let mut i: usize = 0;
        while i < entries.len()
            invariant
                i <= entries.len(),
                forall|j: int| 0 <= j < i ==> (#[trigger] entries@[j]).0 != *key,
            decreases entries.len() - i,
        {
            if entries[i].0.same_key(key) {
                return Some(i);
            }
            i = i + 1;
        }
        None
    }

    /// The number of entries.
    pub fn len(&self) -> (n: usize)
        ensures
            self@.dom().finite(),
            n == self@.dom().len(),
    {
        proof {
            use_type_invariant(self);
            lemma_distinct_keys_count(self.entries@);
        }
        self.entries.len()
    }

    /// Whether the map holds nothing.
    pub fn is_empty(&self) -> (r: bool)
        ensures
            r == (self@ == Map::<K, V>::empty()),
    {
        proof {
            use_type_invariant(self);
            if self.entries@.len() > 0 {
                lemma_as_map_entry(self.entries@, 0);
            } else {
                assert(self@ =~= Map::<K, V>::empty());
            }
        }
        self.entries.len() == 0
    }

    /// The entry at position `i`, for walking the map: positions run from
    /// zero to `len()`, and each key is met at one position only.
    pub fn entry_at(&self, i: usize) -> (entry: (K, V))
        requires
            i < self@.dom().len(),
            self@.dom().finite(),
        ensures
            self@.contains_key(entry.0),
            self@[entry.0] == entry.1,
    {
        proof {
            use_type_invariant(self);
            lemma_distinct_keys_count(self.entries@);
            lemma_as_map_entry(self.entries@, i as int);
        }
        self.entries[i]
    }

    /// Whether the map holds `key`.
    pub fn contains_key(&self, key: &K) -> (r: bool)
        ensures
            r == self@.contains_key(*key),
    {
        Self::find(&self.entries, key).is_some()
    }

    /// The value held under `key`, if any.
    pub fn get(&self, key: &K) -> (r: Option<V>)
        ensures
            r == (if self@.contains_key(*key) {
                Some(self@[*key])
            } else {
                None
            }),
    {
        proof {
            use_type_invariant(self);
        }
        match Self::find(&self.entries, key) {
            Some(i) => {
                proof {
                    lemma_as_map_entry(self.entries@, i as int);
                }
                Some(self.entries[i].1)
            },
            None => None,
        }
    }

    /// Puts `value` under `key`, replacing what was there.
    pub fn insert(&mut self, key: K, value: V)
        ensures
            final(self)@ == old(self)@.insert(key, value),
    {
        proof {
            use_type_invariant(&*self);
        }
        let mut entries: Vec<(K, V)> = Vec::new();
        core::mem::swap(&mut entries, &mut self.entries);
        let ghost before = entries@;
        match Self::find(&entries, &key) {
            Some(i) => {
                entries.set(i, (key, value));
                proof {
                    let after = entries@;
                    assert(distinct_keys(after)) by {
                        assert forall|a: int, b: int| 0 <= a < b < after.len() implies (
                        #[trigger] after[a]).0 != (#[trigger] after[b]).0 by {
                            assert(before[a].0 != before[b].0);
                        }
                    }
                    assert forall|k: K| has_key(after, k) <==> (k == key || has_key(before, k)) by {
                        if has_key(after, k) {
                            let j = index_of(after, k);
                            assert(before[j].0 == k);
                        }
                        if has_key(before, k) {
                            let j = index_of(before, k);
                            assert(after[j].0 == k);
                        }
                        if k == key {
                            assert(after[i as int].0 == k);
                        }
                    }
                    assert forall|k: K| has_key(after, k) implies as_map(after)[k] == as_map(
                        before,
                    ).insert(key, value)[k] by {
                        let j = index_of(after, k);
                        lemma_as_map_entry(after, j);
                        if k != key {
                            assert(before[j].0 == k);
                            lemma_as_map_entry(before, j);
                        }
                    }
                    assert(as_map(after) =~= as_map(before).insert(key, value));
                }
            },
            None => {
                entries.push((key, value));
                proof {
                    let after = entries@;
                    assert(distinct_keys(after)) by {
                        assert forall|a: int, b: int| 0 <= a < b < after.len() implies (
                        #[trigger] after[a]).0 != (#[trigger] after[b]).0 by {
                            if b < before.len() {
                                assert(before[a].0 != before[b].0);
                            } else {
                                assert(before[a].0 != key);
                            }
                        }
                    }
                    assert forall|k: K| has_key(after, k) <==> (k == key || has_key(before, k)) by {
                        if has_key(after, k) {
                            let j = index_of(after, k);
                            if j < before.len() {
                                assert(before[j].0 == k);
                            }
                        }
                        if has_key(before, k) {
                            let j = index_of(before, k);
                            assert(after[j].0 == k);
                        }
                        if k == key {
                            assert(after[before.len() as int].0 == k);
                        }
                    }
                    assert forall|k: K| has_key(after, k) implies as_map(after)[k] == as_map(
                        before,
                    ).insert(key, value)[k] by {
                        let j = index_of(after, k);
                        lemma_as_map_entry(after, j);
                        if k != key {
                            assert(before[j].0 == k);
                            lemma_as_map_entry(before, j);
                        }
                    }
                    assert(as_map(after) =~= as_map(before).insert(key, value));
                }
            },
        }
        self.entries = entries;
    }

    /// Drops `key` and what it held, if anything.
    pub fn remove(&mut self, key: &K)
        ensures
            final(self)@ == old(self)@.remove(*key),
    {
        proof {
            use_type_invariant(&*self);
        }
        let mut entries: Vec<(K, V)> = Vec::new();
        core::mem::swap(&mut entries, &mut self.entries);
        let ghost before = entries@;
        match Self::find(&entries, key) {
            Some(i) => {
                entries.remove(i);
                proof {
                    let after = entries@;
                    assert forall|j: int| 0 <= j < after.len() implies #[trigger] after[j] == before[if j
                        < i {
                        j
                    } else {
                        j + 1
                    }] by {}
                    assert(distinct_keys(after)) by {
                        assert forall|a: int, b: int| 0 <= a < b < after.len() implies (
                        #[trigger] after[a]).0 != (#[trigger] after[b]).0 by {
                            let a0 = if a < i { a } else { a + 1 };
                            let b0 = if b < i { b } else { b + 1 };
                            assert(before[a0].0 != before[b0].0);
                        }
                    }
                    assert forall|k: K| has_key(after, k) <==> (k != *key && has_key(before, k)) by {
                        if has_key(after, k) {
                            let j = index_of(after, k);
                            let j0 = if j < i { j } else { j + 1 };
                            assert(before[j0].0 == k);
                            if k == *key {
                                if j0 < i {
                                    assert(before[j0].0 != before[i as int].0);
                                } else {
                                    assert(before[i as int].0 != before[j0].0);
                                }
                            }
                        }
                        if k != *key && has_key(before, k) {
                            let j0 = index_of(before, k);
                            let j = if j0 < i { j0 } else { j0 - 1 };
                            assert(after[j].0 == k);
                        }
                    }
                    assert forall|k: K| has_key(after, k) implies as_map(after)[k] == as_map(
                        before,
                    )[k] by {
                        let j = index_of(after, k);
                        lemma_as_map_entry(after, j);
                        let j0 = if j < i { j } else { j + 1 };
                        assert(before[j0].0 == k);
                        lemma_as_map_entry(before, j0);
                    }
                    assert(as_map(after) =~= as_map(before).remove(*key));
                }
            },
            None => {
                proof {
                    assert(as_map(before) =~= as_map(before).remove(*key));
                }
            },
        }
        self.entries = entries;
    }

    /// A copy of the map.
    fn duplicate(&self) -> (m: Self)
        ensures
            m@ == self@,
    {
        proof {
            use_type_invariant(self);
        }
        let mut entries: Vec<(K, V)> = Vec::new();
        let mut i: usize = 0;
        while i < self.entries.len()
            invariant
                i <= self.entries.len(),
                entries@ == self.entries@.take(i as int),
            decreases self.entries.len() - i,
        {
            entries.push(self.entries[i]);
            i = i + 1;
        }
        assert(entries@ == self.entries@);
        VecMap { entries }
    }
}

impl<K: MapKey, V: Copy> Clone for VecMap<K, V> {
    fn clone(&self) -> (m: Self)
        ensures
            m@ == self@,
    {
        self.duplicate()
    }
}

} // verus!
