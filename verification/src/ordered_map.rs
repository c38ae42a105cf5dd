//! A small map that keeps its entries in the order in which they were added.
//!
//! Keys are compared at run time through [`Key::same_as`]; contracts speak of
//! a key by the mathematical value that it stands for, [`Key::id`].

use crate::identity::Identity;
use vstd::prelude::*;

verus! {

/// A key of an [`OrderedMap`].
pub trait Key: Sized {
    /// What a key stands for in contracts.
    type Id;

    /// The value that this key stands for.
    spec fn id(&self) -> Self::Id;

    /// Whether two keys stand for the same value.
    fn same_as(&self, other: &Self) -> (r: bool)
        ensures
            r == (self.id() == other.id()),
    ;
}

impl Key for Identity {
    type Id = Seq<u8>;

    open spec fn id(&self) -> Seq<u8> {
        self@
    }

    fn same_as(&self, other: &Identity) -> (r: bool) {
        self.same(other)
    }
}

impl Key for String {
    type Id = Seq<char>;

    open spec fn id(&self) -> Seq<char> {
        self@
    }

    fn same_as(&self, other: &String) -> (r: bool) {
        *self == *other
    }
}

/// Whether some entry of `entries` has the key `key`.
pub open spec fn has_key<I, V>(entries: Seq<(I, V)>, key: I) -> bool {
    exists|i: int| 0 <= i < entries.len() && (#[trigger] entries[i]).0 == key
}

/// Whether no two entries of `entries` share a key.
pub open spec fn distinct_keys<I, V>(entries: Seq<(I, V)>) -> bool {
    forall|i: int, j: int|
        0 <= i < j < entries.len() ==> (#[trigger] entries[i]).0 != (#[trigger] entries[j]).0
}

/// The place of an entry with the key `key`, where there is one.
pub open spec fn position_of<I, V>(entries: Seq<(I, V)>, key: I) -> int {
    choose|i: int| 0 <= i < entries.len() && (#[trigger] entries[i]).0 == key
}

/// The value stored under `key`, where there is one.
pub open spec fn value_of<I, V>(entries: Seq<(I, V)>, key: I) -> V {
    entries[position_of(entries, key)].1
}

/// The entries as a map from key to value.
pub open spec fn as_map<I, V>(entries: Seq<(I, V)>) -> Map<I, V> {
    Map::new(|key: I| has_key(entries, key), |key: I| value_of(entries, key))
}

/// With distinct keys, an entry is found where it stands.
pub proof fn lemma_position_of<I, V>(entries: Seq<(I, V)>, i: int)
    requires
        distinct_keys(entries),
        0 <= i < entries.len(),
    ensures
        has_key(entries, entries[i].0),
        position_of(entries, entries[i].0) == i,
        value_of(entries, entries[i].0) == entries[i].1,
{
    let key = entries[i].0;
    let p = position_of(entries, key);
    assert(0 <= p < entries.len() && entries[p].0 == key);
    if p < i {
        assert(entries[p].0 != entries[i].0);
    } else if i < p {
        assert(entries[i].0 != entries[p].0);
    }
}

/// Adding an entry under a fresh key keeps the keys distinct and adds it to
/// the map.
pub proof fn lemma_push_fresh<I, V>(entries: Seq<(I, V)>, key: I, value: V)
    requires
        distinct_keys(entries),
        !has_key(entries, key),
    ensures
        distinct_keys(entries.push((key, value))),
        as_map(entries.push((key, value))) == as_map(entries).insert(key, value),
{
    let after = entries.push((key, value));
    assert forall|i: int, j: int| 0 <= i < j < after.len() implies (#[trigger] after[i]).0 != (
    #[trigger] after[j]).0 by {
        assert(after[i] == entries[i]);
        if j < entries.len() {
            assert(after[j] == entries[j]);
        }
    }
    assert(after[entries.len() as int].0 == key);
    assert forall|k: I| has_key(after, k) == (k == key || has_key(entries, k)) by {
        if has_key(after, k) {
            let i = position_of(after, k);
            if i < entries.len() {
                assert(entries[i].0 == k);
            }
        }
        if has_key(entries, k) {
            let i = position_of(entries, k);
            assert(after[i].0 == k);
        }
    }
    assert forall|k: I| has_key(after, k) implies value_of(after, k) == (if k == key {
        value
    } else {
        value_of(entries, k)
    }) by {
        let i = position_of(after, k);
        lemma_position_of(after, i);
        if k != key {
            assert(i < entries.len());
            lemma_position_of(entries, i);
        } else {
            lemma_position_of(after, entries.len() as int);
        }
    }
    assert(as_map(after) =~= as_map(entries).insert(key, value));
}

/// Replacing the value of an entry keeps the keys distinct and replaces the
/// value in the map.
pub proof fn lemma_update_value<I, V>(entries: Seq<(I, V)>, i: int, value: V)
    requires
        distinct_keys(entries),
        0 <= i < entries.len(),
    ensures
        distinct_keys(entries.update(i, (entries[i].0, value))),
        as_map(entries.update(i, (entries[i].0, value))) == as_map(entries).insert(
            entries[i].0,
            value,
        ),
{
    let key = entries[i].0;
    let after = entries.update(i, (key, value));
    assert forall|a: int| 0 <= a < after.len() implies (#[trigger] after[a]).0 == entries[a].0 by {}
    assert forall|a: int, b: int| 0 <= a < b < after.len() implies (#[trigger] after[a]).0 != (
    #[trigger] after[b]).0 by {
        assert(entries[a].0 != entries[b].0);
    }
    assert forall|k: I| has_key(after, k) == has_key(entries, k) by {
        if has_key(after, k) {
            let p = position_of(after, k);
            assert(entries[p].0 == k);
        }
        if has_key(entries, k) {
            let p = position_of(entries, k);
            assert(after[p].0 == k);
        }
    }
    assert(has_key(entries, key));
    assert forall|k: I| has_key(after, k) implies value_of(after, k) == (if k == key {
        value
    } else {
        value_of(entries, k)
    }) by {
        let p = position_of(after, k);
        lemma_position_of(after, p);
        lemma_position_of(entries, p);
        if k == key {
            lemma_position_of(after, i);
        }
    }
    assert(as_map(after) =~= as_map(entries).insert(key, value));
}

/// Taking an entry out keeps the keys distinct and takes its key out of the
/// map.
pub proof fn lemma_remove_entry<I, V>(entries: Seq<(I, V)>, i: int)
    requires
        distinct_keys(entries),
        0 <= i < entries.len(),
    ensures
        distinct_keys(entries.remove(i)),
        !has_key(entries.remove(i), entries[i].0),
        as_map(entries.remove(i)) == as_map(entries).remove(entries[i].0),
{
    let key = entries[i].0;
    let after = entries.remove(i);
    assert forall|a: int| 0 <= a < after.len() implies #[trigger] after[a] == (if a < i {
        entries[a]
    } else {
        entries[a + 1]
    }) by {}
    assert forall|a: int, b: int| 0 <= a < b < after.len() implies (#[trigger] after[a]).0 != (
    #[trigger] after[b]).0 by {
        let first = if a < i { a } else { a + 1 };
        let second = if b < i { b } else { b + 1 };
        assert(entries[first].0 != entries[second].0);
    }
    assert forall|k: I| has_key(after, k) == (k != key && has_key(entries, k)) by {
        if has_key(after, k) {
            let p = position_of(after, k);
            let shifted = if p < i { p } else { p + 1 };
            assert(entries[shifted].0 == k);
            if shifted < i {
                assert(entries[shifted].0 != entries[i].0);
            } else {
                assert(entries[i].0 != entries[shifted].0);
            }
        }
        if k != key && has_key(entries, k) {
            let p = position_of(entries, k);
            let q = if p < i { p } else { p - 1 };
            assert(after[q].0 == k);
        }
    }
    assert forall|k: I| has_key(after, k) implies value_of(after, k) == value_of(entries, k) by {
        let p = position_of(after, k);
        lemma_position_of(after, p);
        let shifted = if p < i { p } else { p + 1 };
        lemma_position_of(entries, shifted);
    }
    assert(as_map(after) =~= as_map(entries).remove(key));
}

/// A map from keys to values that remembers the order in which its entries
/// were added. No two entries share a key.
pub struct OrderedMap<K: Key, V> {
    slots: Vec<(K, V)>,
}

impl<K: Key, V> OrderedMap<K, V> {
    /// The entries, oldest first, each key as the value it stands for.
    pub closed spec fn entries(&self) -> Seq<(K::Id, V)> {
        self.slots@.map_values(|slot: (K, V)| (slot.0.id(), slot.1))
    }

    /// The entries as a map from key to value.
    pub open spec fn map(&self) -> Map<K::Id, V> {
        as_map(self.entries())
    }

    /// No two entries share a key.
    #[verifier::type_invariant]
    pub open spec fn keys_distinct(&self) -> bool {
        distinct_keys(self.entries())
    }

    /// A map without entries.
    pub fn new() -> (m: Self)
        ensures
            m.entries() == Seq::<(K::Id, V)>::empty(),
    {
        let m = OrderedMap { slots: Vec::new() };
        assert(m.entries() =~= Seq::<(K::Id, V)>::empty());
        m
    }

    /// The number of entries.
    pub fn len(&self) -> (n: usize)
        ensures
            n == self.entries().len(),
    {
        self.slots.len()
    }

    /// The entry at place `i`, counted from the oldest.
    pub fn slot(&self, i: usize) -> (r: (&K, &V))
        requires
            i < self.entries().len(),
        ensures
            r.0.id() == self.entries()[i as int].0,
            *r.1 == self.entries()[i as int].1,
    {
        let slot = &self.slots[i];
        (&slot.0, &slot.1)
    }

    /// The place of the entry under `key`.
    pub fn find(&self, key: &K) -> (r: Option<usize>)
        ensures
            match r {
                Some(i) => i < self.entries().len() && self.entries()[i as int].0 == key.id()
                    && position_of(self.entries(), key.id()) == i,
                None => !has_key(self.entries(), key.id()),
            },
    {
        proof {
            use_type_invariant(self);
        }
        let mut i: usize = 0;
        while i < self.slots.len()
            invariant
                i <= self.slots.len(),
                self.slots.len() == self.entries().len(),
                distinct_keys(self.entries()),
                forall|j: int| 0 <= j < i ==> (#[trigger] self.entries()[j]).0 != key.id(),
            decreases self.slots.len() - i,
        {
            if self.slots[i].0.same_as(key) {
                proof {
                    lemma_position_of(self.entries(), i as int);
                }
                return Some(i);
            }
            i += 1;
        }
        None
    }

    /// Whether there is an entry under `key`.
    pub fn contains(&self, key: &K) -> (r: bool)
        ensures
            r == has_key(self.entries(), key.id()),
    {
        self.find(key).is_some()
    }

    /// The value stored under `key`.
    pub fn get(&self, key: &K) -> (r: Option<&V>)
        ensures
            match r {
                Some(value) => has_key(self.entries(), key.id()) && *value == value_of(
                    self.entries(),
                    key.id(),
                ),
                None => !has_key(self.entries(), key.id()),
            },
    {
        match self.find(key) {
            Some(i) => Some(&self.slots[i].1),
            None => None,
        }
    }

    /// Stores `value` under `key`: in the place of the entry that `key`
    /// already has, or else as the newest entry.
    pub fn insert(&mut self, key: K, value: V)
        ensures
            final(self).entries() == (if has_key(old(self).entries(), key.id()) {
                old(self).entries().update(
                    position_of(old(self).entries(), key.id()),
                    (key.id(), value),
                )
            } else {
                old(self).entries().push((key.id(), value))
            }),
            final(self).map() == old(self).map().insert(key.id(), value),
    {
        proof {
            use_type_invariant(&*self);
        }
        let found = self.find(&key);
        let ghost before = self.entries();
        let mut slots: Vec<(K, V)> = Vec::new();
        std::mem::swap(&mut slots, &mut self.slots);
        match found {
            Some(i) => {
                proof {
                    lemma_update_value(before, i as int, value);
                }
                slots[i] = (key, value);
            },
            None => {
                proof {
                    lemma_push_fresh(before, key.id(), value);
                }
                slots.push((key, value));
            },
        }
        proof {
            let after = slots@.map_values(|slot: (K, V)| (slot.0.id(), slot.1));
            if found is Some {
                assert(after =~= before.update(found.unwrap() as int, (key.id(), value)));
            } else {
                assert(after =~= before.push((key.id(), value)));
            }
        }
        self.slots = slots;
    }

    /// Stores `value` under `key` as the newest entry, unless `key` has an
    /// entry already: then nothing changes and the answer is `false`.
    pub fn insert_new(&mut self, key: K, value: V) -> (added: bool)
        ensures
            added == !has_key(old(self).entries(), key.id()),
            added ==> final(self).entries() == old(self).entries().push((key.id(), value)),
            added ==> final(self).map() == old(self).map().insert(key.id(), value),
            !added ==> final(self).entries() == old(self).entries(),
    {
        proof {
            use_type_invariant(&*self);
        }
        if self.find(&key).is_some() {
            return false;
        }
        let ghost before = self.entries();
        let mut slots: Vec<(K, V)> = Vec::new();
        std::mem::swap(&mut slots, &mut self.slots);
        proof {
            lemma_push_fresh(before, key.id(), value);
        }
        slots.push((key, value));
        proof {
            let after = slots@.map_values(|slot: (K, V)| (slot.0.id(), slot.1));
            assert(after =~= before.push((key.id(), value)));
        }
        self.slots = slots;
        true
    }

    /// Takes the entry under `key` out, leaving the others in their order.
    pub fn remove(&mut self, key: &K) -> (r: Option<(K, V)>)
        ensures
            match r {
                Some(entry) => has_key(old(self).entries(), key.id()) && entry.0.id() == key.id()
                    && entry.1 == value_of(old(self).entries(), key.id()) && final(self).entries()
                    == old(self).entries().remove(position_of(old(self).entries(), key.id())),
                None => !has_key(old(self).entries(), key.id()) && final(self).entries()
                    == old(self).entries(),
            },
            final(self).map() == old(self).map().remove(key.id()),
    {
        proof {
            use_type_invariant(&*self);
        }
        let ghost before = self.entries();
        match self.find(key) {
            Some(i) => {
                let mut slots: Vec<(K, V)> = Vec::new();
                std::mem::swap(&mut slots, &mut self.slots);
                proof {
                    lemma_remove_entry(before, i as int);
                    lemma_position_of(before, i as int);
                }
                let entry = slots.remove(i);
                proof {
                    let after = slots@.map_values(|slot: (K, V)| (slot.0.id(), slot.1));
                    assert(after =~= before.remove(i as int));
                }
                self.slots = slots;
                Some(entry)
            },
            None => {
                assert(self.map() =~= self.map().remove(key.id()));
                None
            },
        }
    }
}

} // verus!
