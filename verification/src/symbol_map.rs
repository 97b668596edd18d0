//! A map keyed by instrument or asset name that remembers the order in which
//! its keys first came, so that walking it is the same on every run.

use vstd::prelude::*;

verus! {

#[derive(Debug)]
struct Slot<V> {
    key: String,
    value: V,
}

/// A map from names to values. No name occurs twice, and the names stay in
/// the order in which they were first inserted.
#[derive(Debug)]
pub struct SymbolMap<V> {
    slots: Vec<Slot<V>>,
}

/// The map that a list of distinct keys and the list of their values stand
/// for.
pub open spec fn entries_map<V>(keys: Seq<Seq<char>>, values: Seq<V>) -> Map<Seq<char>, V> {
    Map::new(|k: Seq<char>| keys.contains(k), |k: Seq<char>| values[keys.index_of(k)])
}

/// In a list without duplicates every element is found at its own index.
pub proof fn lemma_index_of_unique(keys: Seq<Seq<char>>, i: int)
    requires
        keys.no_duplicates(),
        0 <= i < keys.len(),
    ensures
        keys.contains(keys[i]),
        keys.index_of(keys[i]) == i,
{
    let k = keys[i];
    assert(keys.contains(k));
    let j = keys.index_of(k);
    assert(0 <= j < keys.len() && keys[j] == k);
}

/// Overwriting the value of a key that is present is a map insertion.
pub proof fn lemma_entries_map_update<V>(keys: Seq<Seq<char>>, values: Seq<V>, i: int, value: V)
    requires
        keys.no_duplicates(),
        keys.len() == values.len(),
        0 <= i < keys.len(),
    ensures
        entries_map(keys, values.update(i, value)) == entries_map(keys, values).insert(keys[i], value),
{
    let before = entries_map(keys, values);
    let after = entries_map(keys, values.update(i, value));
    lemma_index_of_unique(keys, i);
    assert forall|k: Seq<char>| #[trigger] after.dom().contains(k) <==> before.insert(keys[i], value).dom().contains(k) by {}
    assert forall|k: Seq<char>| #[trigger]
        after.dom().contains(k) implies after[k] == before.insert(keys[i], value)[k] by {
        let j = keys.index_of(k);
        assert(0 <= j < keys.len() && keys[j] == k);
    }
    assert(after =~= before.insert(keys[i], value));
}

/// Appending a new key with its value is a map insertion.
pub proof fn lemma_entries_map_push<V>(keys: Seq<Seq<char>>, values: Seq<V>, key: Seq<char>, value: V)
    requires
        keys.no_duplicates(),
        keys.len() == values.len(),
        !keys.contains(key),
    ensures
        keys.push(key).no_duplicates(),
        entries_map(keys.push(key), values.push(value)) == entries_map(keys, values).insert(key, value),
{
    let before = entries_map(keys, values);
    let keys2 = keys.push(key);
    let after = entries_map(keys2, values.push(value));
    assert forall|a: int, b: int| 0 <= a < keys2.len() && 0 <= b < keys2.len() && a != b implies keys2[a]
        != keys2[b] by {
        if a < keys.len() {
            assert(keys.contains(keys[a]));
        }
        if b < keys.len() {
            assert(keys.contains(keys[b]));
        }
    }
    assert(keys2[keys.len() as int] == key);
    assert forall|k: Seq<char>| #[trigger] after.dom().contains(k) <==> before.insert(key, value).dom().contains(k) by {
        if keys2.contains(k) {
            let j = choose|j: int| 0 <= j < keys2.len() && keys2[j] == k;
            if j < keys.len() {
                assert(keys[j] == k);
            }
        }
        if keys.contains(k) {
            let j = choose|j: int| 0 <= j < keys.len() && keys[j] == k;
            assert(keys2[j] == k);
        }
    }
    assert forall|k: Seq<char>| #[trigger] after.dom().contains(k) implies after[k] == before.insert(key, value)[k] by {
        let j = keys2.index_of(k);
        assert(0 <= j < keys2.len() && keys2[j] == k);
        if k == key {
            lemma_index_of_unique(keys2, keys.len() as int);
        } else {
            assert(keys[j] == k);
            lemma_index_of_unique(keys, j);
        }
    }
    assert(after =~= before.insert(key, value));
}

spec fn slot_keys<V>(slots: Seq<Slot<V>>) -> Seq<Seq<char>> {
    slots.map_values(|slot: Slot<V>| slot.key@)
}

spec fn slot_values<V>(slots: Seq<Slot<V>>) -> Seq<V> {
    slots.map_values(|slot: Slot<V>| slot.value)
}

impl<V> SymbolMap<V> {
    /// The keys, in the order in which they first came.
    pub closed spec fn keys(&self) -> Seq<Seq<char>> {
        slot_keys(self.slots@)
    }

    /// The values, each at the index of its key.
    pub closed spec fn values(&self) -> Seq<V> {
        slot_values(self.slots@)
    }

    #[verifier::type_invariant]
    spec fn well_formed(self) -> bool {
        self.keys().no_duplicates()
    }

    /// The keys and the values go together: as many of the one as of the
    /// other, and no key twice.
    pub open spec fn consistent(&self) -> bool {
        &&& self.keys().len() == self.values().len()
        &&& self.keys().no_duplicates()
    }

    pub fn new() -> (map: SymbolMap<V>)
        ensures
            map.keys() == Seq::<Seq<char>>::empty(),
            map.values() == Seq::<V>::empty(),
            map@ == Map::<Seq<char>, V>::empty(),
    {
        let slots: Vec<Slot<V>> = Vec::new();
        assert(slot_keys(slots@) =~= Seq::<Seq<char>>::empty());
        let map = SymbolMap { slots };
        assert(map.keys() =~= Seq::<Seq<char>>::empty());
        assert(map.values() =~= Seq::<V>::empty());
        assert(map@ =~= Map::<Seq<char>, V>::empty());
        map
    }

    /// The number of keys.
    pub fn len(&self) -> (n: usize)
        ensures
            n == self.keys().len(),
            self.consistent(),
    {
        proof {
            use_type_invariant(self);
        }
        self.slots.len()
    }

    /// The index of `key` among the keys, if it is one of them.
    pub fn index_of(&self, key: &String) -> (index: Option<usize>)
        ensures
            self.consistent(),
            match index {
                Some(i) => i < self.keys().len() && self.keys()[i as int] == key@ && self.keys().index_of(key@) == i,
                None => !self.keys().contains(key@),
            },
    {
        proof {
            use_type_invariant(self);
        }
        let n = self.slots.len();
        let mut i: usize = 0;
        while i < n
            invariant
                0 <= i <= n,
                n == self.slots.len(),
                self.consistent(),
                forall|j: int| 0 <= j < i ==> (#[trigger] self.keys()[j]) != key@,
            decreases n - i,
        {
            if self.slots[i].key == *key {
                proof {
                    lemma_index_of_unique(self.keys(), i as int);
                }
                return Some(i);
            }
            i += 1;
        }
        None
    }

    pub fn contains_key(&self, key: &String) -> (found: bool)
        ensures
            found == self@.contains_key(key@),
    {
        self.index_of(key).is_some()
    }

    /// The value of `key`, if it has one.
    pub fn get(&self, key: &String) -> (value: Option<&V>)
        ensures
            match value {
                Some(v) => self@.contains_key(key@) && *v == self@[key@],
                None => !self@.contains_key(key@),
            },
    {
        match self.index_of(key) {
            Some(i) => Some(&self.slots[i].value),
            None => None,
        }
    }

    /// The key at `index`.
    pub fn key_at(&self, index: usize) -> (key: &String)
        requires
            index < self.keys().len(),
        ensures
            key@ == self.keys()[index as int],
    {
        &self.slots[index].key
    }

    /// The value at `index`: the value of the key at `index`.
    pub fn value_at(&self, index: usize) -> (value: &V)
        requires
            index < self.keys().len(),
        ensures
            self.consistent(),
            *value == self.values()[index as int],
            self@.contains_key(self.keys()[index as int]),
            *value == self@[self.keys()[index as int]],
    {
        proof {
            use_type_invariant(self);
            lemma_index_of_unique(self.keys(), index as int);
        }
        &self.slots[index].value
    }

    /// Gives `key` the value `value`. A key that is new comes last; one that
    /// is present keeps its place.
    pub fn insert(&mut self, key: String, value: V)
        ensures
            final(self)@ == old(self)@.insert(key@, value),
            final(self).consistent(),
            old(self).keys().contains(key@) ==> {
                &&& final(self).keys() == old(self).keys()
                &&& final(self).values() == old(self).values().update(old(self).keys().index_of(key@), value)
            },
            !old(self).keys().contains(key@) ==> {
                &&& final(self).keys() == old(self).keys().push(key@)
                &&& final(self).values() == old(self).values().push(value)
            },
    {
        proof {
            use_type_invariant(&*self);
        }
        let found = self.index_of(&key);
        let mut taken = SymbolMap::new();
        core::mem::swap(self, &mut taken);
        let mut slots = taken.slots;
        let ghost keys = old(self).keys();
        let ghost values = old(self).values();
        match found {
            Some(i) => {
                proof {
                    lemma_entries_map_update(keys, values, i as int, value);
                }
                slots.set(i, Slot { key, value });
                assert(slot_keys(slots@) =~= keys);
                assert(slot_values(slots@) =~= values.update(i as int, value));
                *self = SymbolMap { slots };
            },
            None => {
                proof {
                    lemma_entries_map_push(keys, values, key@, value);
                }
                slots.push(Slot { key, value });
                assert(slot_keys(slots@) =~= keys.push(key@));
                assert(slot_values(slots@) =~= values.push(value));
                *self = SymbolMap { slots };
            },
        }
    }

    /// Puts `value` in the place of the value at `index` and hands the
    /// earlier value out.
    pub fn replace_at(&mut self, index: usize, value: V) -> (earlier: V)
        requires
            index < old(self).keys().len(),
        ensures
            earlier == old(self).values()[index as int],
            final(self).keys() == old(self).keys(),
            final(self).values() == old(self).values().update(index as int, value),
            final(self)@ == old(self)@.insert(old(self).keys()[index as int], value),
            final(self).consistent(),
    {
        proof {
            use_type_invariant(&*self);
            lemma_entries_map_update(self.keys(), self.values(), index as int, value);
        }
        let mut taken = SymbolMap::new();
        core::mem::swap(self, &mut taken);
        let mut slots = taken.slots;
        let Slot { key, value: earlier } = slots.remove(index);
        slots.insert(index, Slot { key, value });
        assert(slot_keys(slots@) =~= old(self).keys());
        assert(slot_values(slots@) =~= old(self).values().update(index as int, value));
        *self = SymbolMap { slots };
        earlier
    }
}

impl<V> View for SymbolMap<V> {
    type V = Map<Seq<char>, V>;

    open spec fn view(&self) -> Map<Seq<char>, V> {
        entries_map(self.keys(), self.values())
    }
}

} // verus!
