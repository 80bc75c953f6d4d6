//! A map keyed by node identifiers.

use vstd::prelude::*;

verus! {

/// Whether some entry of `entries` is stored under `key`.
spec fn holds<V>(entries: Seq<(String, V)>, key: Seq<char>) -> bool {
    exists|i: int| 0 <= i < entries.len() && (#[trigger] entries[i]).0@ == key
}

/// The position of an entry of `entries` stored under `key`.
spec fn slot<V>(entries: Seq<(String, V)>, key: Seq<char>) -> int {
    choose|i: int| 0 <= i < entries.len() && (#[trigger] entries[i]).0@ == key
}

/// No two entries of `entries` share a key.
spec fn keys_distinct<V>(entries: Seq<(String, V)>) -> bool {
    forall|i: int, j: int|
        0 <= i < j < entries.len() ==> (#[trigger] entries[i]).0@ != (#[trigger] entries[j]).0@
}

/// The map that `entries` spell out.
spec fn as_map<V>(entries: Seq<(String, V)>) -> Map<Seq<char>, V> {
    Map::new(|key: Seq<char>| holds(entries, key), |key: Seq<char>| entries[slot(entries, key)].1)
}

/// With distinct keys, the entry at position `i` is the one the map holds for its key.
proof fn lemma_entry_is_mapped<V>(entries: Seq<(String, V)>, i: int)
    requires
        keys_distinct(entries),
        0 <= i < entries.len(),
    ensures
        as_map(entries).dom().contains(entries[i].0@),
        as_map(entries)[entries[i].0@] == entries[i].1,
{
    let key = entries[i].0@;
    assert(holds(entries, key));
    let j = slot(entries, key);
    assert(0 <= j < entries.len() && entries[j].0@ == key);
    assert(j == i);
}

/// A map from node identifiers to values of type `V`, with at most one value
/// per identifier.
#[derive(Debug)]
pub struct NodeMap<V> {
    entries: Vec<(String, V)>,
}

impl<V> View for NodeMap<V> {
    type V = Map<Seq<char>, V>;

    closed spec fn view(&self) -> Map<Seq<char>, V> {
        as_map(self.entries@)
    }
}

impl<V> NodeMap<V> {
    #[verifier::type_invariant]
    spec fn well_formed(&self) -> bool {
        keys_distinct(self.entries@)
    }

    /// The empty map.
    pub fn new() -> (map: Self)
        ensures
            map@ == Map::<Seq<char>, V>::empty(),
    {
        let map = NodeMap { entries: Vec::new() };
        assert(map@ =~= Map::<Seq<char>, V>::empty());
        map
    }

    /// The position of the entry stored under `key`, if there is one.
    fn find(&self, key: &String) -> (position: Option<usize>)
        ensures
            match position {
                Some(i) => i < self.entries@.len() && self.entries@[i as int].0@ == key@,
                None => !holds(self.entries@, key@),
            },
    {
        let mut i: usize = 0;
        while i < self.entries.len()
            invariant
                i <= self.entries@.len(),
                forall|j: int| 0 <= j < i ==> (#[trigger] self.entries@[j]).0@ != key@,
            decreases self.entries@.len() - i,
        {
            if self.entries[i].0 == *key {
                return Some(i);
            }
            i += 1;
        }
        None
    }

    /// The number of entries.
    pub fn len(&self) -> (n: usize)
        ensures
            n == self@.dom().len(),
            self@.dom().finite(),
    {
        proof {
            use_type_invariant(self);
            lemma_domain_size(self.entries@);
        }
        self.entries.len()
    }

    /// Whether a value is stored under `key`.
    pub fn contains_key(&self, key: &String) -> (found: bool)
        ensures
            found == self@.dom().contains(key@),
    {
        self.find(key).is_some()
    }

    /// The value stored under `key`, if there is one.
    pub fn get(&self, key: &String) -> (value: Option<&V>)
        ensures
            match value {
                Some(v) => self@.dom().contains(key@) && *v == self@[key@],
                None => !self@.dom().contains(key@),
            },
    {
        proof {
            use_type_invariant(self);
        }
        match self.find(key) {
            Some(i) => {
                proof {
                    lemma_entry_is_mapped(self.entries@, i as int);
                }
                Some(&self.entries[i].1)
            },
            None => None,
        }
    }

    /// Takes the value stored under `key` out of the map and returns it.
    pub fn remove(&mut self, key: &String) -> (value: Option<V>)
        ensures
            final(self)@ == old(self)@.remove(key@),
            value == if old(self)@.dom().contains(key@) {
                Some(old(self)@[key@])
            } else {
                None::<V>
            },
    {
        proof {
            use_type_invariant(&*self);
        }
        match self.find(key) {
            Some(i) => {
                let mut entries: Vec<(String, V)> = Vec::new();
                core::mem::swap(&mut self.entries, &mut entries);
                let ghost before = entries@;
                let entry = entries.remove(i);
                proof {
                    lemma_entry_is_mapped(before, i as int);
                    lemma_remove_entry(before, i as int);
                }
                self.entries = entries;
                Some(entry.1)
            },
            None => {
                assert(self@ =~= old(self)@.remove(key@));
                None
            },
        }
    }

    /// Stores `value` under `key` and returns the value that was stored there
    /// before, if there was one.
    pub fn insert(&mut self, key: String, value: V) -> (previous: Option<V>)
        ensures
            final(self)@ == old(self)@.insert(key@, value),
            previous == if old(self)@.dom().contains(key@) {
                Some(old(self)@[key@])
            } else {
                None::<V>
            },
    {
        let previous = self.remove(&key);
        proof {
            use_type_invariant(&*self);
            assert(!self@.dom().contains(key@));
            assert(!holds(self.entries@, key@));
        }
        let mut entries: Vec<(String, V)> = Vec::new();
        core::mem::swap(&mut self.entries, &mut entries);
        let ghost before = entries@;
        entries.push((key, value));
        proof {
            lemma_push_entry(before, key@, (key, value));
            assert(old(self)@.remove(key@).insert(key@, value) =~= old(self)@.insert(key@, value));
        }
        self.entries = entries;
        previous
    }

    /// The entries of the map, each key once, in no particular order.
    pub fn entries(&self) -> (entries: &Vec<(String, V)>)
        ensures
            entries@.len() == self@.dom().len(),
            forall|i: int|
                0 <= i < entries@.len() ==> self@.dom().contains((#[trigger] entries@[i]).0@)
                    && self@[entries@[i].0@] == entries@[i].1,
            forall|key: Seq<char>|
                self@.dom().contains(key) ==> exists|i: int|
                    0 <= i < entries@.len() && (#[trigger] entries@[i]).0@ == key,
            forall|i: int, j: int|
                0 <= i < j < entries@.len() ==> (#[trigger] entries@[i]).0@ != (
                #[trigger] entries@[j]).0@,
    {
        proof {
            use_type_invariant(self);
            lemma_domain_size(self.entries@);
            assert forall|i: int| 0 <= i < self.entries@.len() implies self@.dom().contains(
                (#[trigger] self.entries@[i]).0@,
            ) && self@[self.entries@[i].0@] == self.entries@[i].1 by {
                lemma_entry_is_mapped(self.entries@, i);
            }
        }
        &self.entries
    }
}

impl<V: Clone> Clone for NodeMap<V> {
    /// A copy with the same keys, each holding a clone of the value it holds here.
    fn clone(&self) -> (copy: Self)
        ensures
            copy@.dom() == self@.dom(),
            forall|key: Seq<char>| #[trigger]
                self@.dom().contains(key) ==> cloned::<V>(self@[key], copy@[key]),
    {
        proof {
            use_type_invariant(self);
        }
        let mut entries: Vec<(String, V)> = Vec::new();
        let mut i: usize = 0;
        while i < self.entries.len()
            invariant
                i <= self.entries@.len(),
                entries@.len() == i,
                forall|j: int|
                    0 <= j < i ==> (#[trigger] entries@[j]).0@ == self.entries@[j].0@ && cloned::<V>(
                        self.entries@[j].1,
                        entries@[j].1,
                    ),
            decreases self.entries@.len() - i,
        {
            let key = self.entries[i].0.clone();
            let value = self.entries[i].1.clone();
            entries.push((key, value));
            i += 1;
        }
        proof {
            assert forall|key: Seq<char>| holds(entries@, key) <==> holds(self.entries@, key) by {
                if holds(entries@, key) {
                    let j = slot(entries@, key);
                    assert(self.entries@[j].0@ == key);
                }
                if holds(self.entries@, key) {
                    let j = slot(self.entries@, key);
                    assert(entries@[j].0@ == key);
                }
            }
            assert(as_map(entries@).dom() =~= as_map(self.entries@).dom());
            assert forall|key: Seq<char>| #[trigger]
                as_map(self.entries@).dom().contains(key) implies cloned::<V>(
                as_map(self.entries@)[key],
                as_map(entries@)[key],
            ) by {
                let j = slot(self.entries@, key);
                assert(entries@[j].0@ == key);
                lemma_entry_is_mapped(self.entries@, j);
                lemma_entry_is_mapped(entries@, j);
            }
        }
        NodeMap { entries }
    }
}

/// Dropping the entry at position `i` removes its key from the map and nothing else.
proof fn lemma_remove_entry<V>(entries: Seq<(String, V)>, i: int)
    requires
        keys_distinct(entries),
        0 <= i < entries.len(),
    ensures
        keys_distinct(entries.remove(i)),
        as_map(entries.remove(i)) == as_map(entries).remove(entries[i].0@),
{
    let rest = entries.remove(i);
    let key = entries[i].0@;
    assert(keys_distinct(rest)) by {
        assert forall|a: int, b: int| 0 <= a < b < rest.len() implies (#[trigger] rest[a]).0@ != (
        #[trigger] rest[b]).0@ by {
            let a0 = if a < i { a } else { a + 1 };
            let b0 = if b < i { b } else { b + 1 };
            assert(rest[a] == entries[a0] && rest[b] == entries[b0]);
        }
    }
    assert forall|k: Seq<char>| holds(rest, k) <==> (holds(entries, k) && k != key) by {
        if holds(rest, k) {
            let a = slot(rest, k);
            let a0 = if a < i { a } else { a + 1 };
            assert(rest[a] == entries[a0]);
            assert(entries[a0].0@ == k);
        }
        if holds(entries, k) && k != key {
            let a0 = slot(entries, k);
            let a = if a0 < i { a0 } else { a0 - 1 };
            assert(rest[a] == entries[a0]);
            assert(rest[a].0@ == k);
        }
    }
    assert forall|k: Seq<char>| holds(rest, k) implies as_map(rest)[k] == as_map(entries)[k] by {
        let a = slot(rest, k);
        let a0 = if a < i { a } else { a + 1 };
        assert(rest[a] == entries[a0]);
        lemma_entry_is_mapped(entries, a0);
    }
    assert(as_map(rest) =~= as_map(entries).remove(key));
}

/// Appending an entry under a key that the map lacks inserts it and nothing else.
proof fn lemma_push_entry<V>(entries: Seq<(String, V)>, key: Seq<char>, entry: (String, V))
    requires
        keys_distinct(entries),
        !holds(entries, key),
        entry.0@ == key,
    ensures
        keys_distinct(entries.push(entry)),
        as_map(entries.push(entry)) == as_map(entries).insert(key, entry.1),
{
    let grown = entries.push(entry);
    assert(keys_distinct(grown)) by {
        assert forall|a: int, b: int| 0 <= a < b < grown.len() implies (#[trigger] grown[a]).0@ != (
        #[trigger] grown[b]).0@ by {
            assert(grown[a] == entries[a]);
            if b < entries.len() {
                assert(grown[b] == entries[b]);
            }
        }
    }
    assert forall|k: Seq<char>| holds(grown, k) <==> (holds(entries, k) || k == key) by {
        if holds(grown, k) {
            let a = slot(grown, k);
            if a < entries.len() {
                assert(grown[a] == entries[a]);
            }
        }
        if holds(entries, k) {
            let a = slot(entries, k);
            assert(grown[a] == entries[a]);
        }
        if k == key {
            assert(grown[entries.len() as int].0@ == key);
        }
    }
    assert forall|k: Seq<char>| holds(grown, k) implies as_map(grown)[k] == as_map(entries).insert(
        key,
        entry.1,
    )[k] by {
        let a = slot(grown, k);
        lemma_entry_is_mapped(grown, a);
        if a < entries.len() {
            assert(grown[a] == entries[a]);
            lemma_entry_is_mapped(entries, a);
        }
    }
    assert(as_map(grown) =~= as_map(entries).insert(key, entry.1));
}

/// A list of entries with distinct keys spells out a finite map of as many keys.
proof fn lemma_domain_size<V>(entries: Seq<(String, V)>)
    requires
        keys_distinct(entries),
    ensures
        as_map(entries).dom().finite(),
        as_map(entries).dom().len() == entries.len(),
    decreases entries.len(),
{
    if entries.len() == 0 {
        assert(as_map(entries).dom() =~= Set::<Seq<char>>::empty());
    } else {
        let last = entries.len() - 1;
        let rest = entries.remove(last);
        lemma_remove_entry(entries, last);
        lemma_entry_is_mapped(entries, last);
        lemma_domain_size(rest);
        let key = entries[last].0@;
        assert(as_map(entries).dom() =~= as_map(rest).dom().insert(key));
    }
}

} // verus!
