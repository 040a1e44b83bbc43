//! Maps from `u64` keys, kept in ascending key order.

use vstd::prelude::*;

verus! {

/// A map stored as a vector of entries sorted by key.
#[derive(Debug)]
pub struct OrderedMap<V> {
    pub entries: Vec<(u64, V)>,
}

/// Keys are strictly ascending.
pub open spec fn ascending<V>(entries: Seq<(u64, V)>) -> bool {
    forall|i: int, j: int| 0 <= i < j < entries.len() ==> entries[i].0 < entries[j].0
}

/// Some entry carries key `k`.
pub open spec fn has_key<V>(entries: Seq<(u64, V)>, k: u64) -> bool {
    exists|i: int| 0 <= i < entries.len() && (#[trigger] entries[i]).0 == k
}

/// The position of key `k`.
pub open spec fn key_index<V>(entries: Seq<(u64, V)>, k: u64) -> int {
    choose|i: int| 0 <= i < entries.len() && (#[trigger] entries[i]).0 == k
}

/// The map that a sorted list of entries stands for.
pub open spec fn entry_map<V>(entries: Seq<(u64, V)>) -> Map<u64, V> {
    Map::new(|k: u64| has_key(entries, k), |k: u64| entries[key_index(entries, k)].1)
}

impl<V> View for OrderedMap<V> {
    type V = Map<u64, V>;

    open spec fn view(&self) -> Map<u64, V> {
        entry_map(self.entries@)
    }
}

/// Every listed entry is in the map.
pub proof fn lemma_entry<V>(entries: Seq<(u64, V)>, i: int)
    requires
        ascending(entries),
        0 <= i < entries.len(),
    ensures
        entry_map(entries).contains_key(entries[i].0),
        entry_map(entries)[entries[i].0] == entries[i].1,
        key_index(entries, entries[i].0) == i,
{
    let k = entries[i].0;
    assert(has_key(entries, k));
    let j = key_index(entries, k);
    assert(0 <= j < entries.len() && entries[j].0 == k);
    assert(i == j) by {
        if i < j {
            assert(entries[i].0 < entries[j].0);
        }
        if j < i {
            assert(entries[j].0 < entries[i].0);
        }
    }
}

/// A sorted list holds as many entries as its map has keys.
pub proof fn lemma_entry_count<V>(entries: Seq<(u64, V)>)
    requires
        ascending(entries),
    ensures
        entry_map(entries).dom().finite(),
        entry_map(entries).dom().len() == entries.len(),
    decreases entries.len(),
{
    if entries.len() == 0 {
        assert(entry_map(entries).dom() =~= Set::<u64>::empty());
    } else {
        let rest = entries.drop_last();
        assert(ascending(rest));
        lemma_entry_count(rest);
        let k = entries.last().0;
        assert(!entry_map(rest).dom().contains(k)) by {
            if has_key(rest, k) {
                let i = key_index(rest, k);
                assert(rest[i] == entries[i]);
                assert(entries[i].0 < entries[entries.len() - 1].0);
            }
        }
        assert(entry_map(entries).dom() =~= entry_map(rest).dom().insert(k)) by {
            assert forall|x: u64| has_key(entries, x) implies has_key(rest, x) || x == k by {
                let i = key_index(entries, x);
                if i < entries.len() - 1 {
                    assert(rest[i] == entries[i]);
                }
            }
            assert forall|x: u64| has_key(rest, x) || x == k implies has_key(entries, x) by {
                if x == k {
                    assert(entries[entries.len() - 1].0 == k);
                } else {
                    let i = key_index(rest, x);
                    assert(rest[i] == entries[i]);
                }
            }
        }
    }
}

impl<V> OrderedMap<V> {
    /// The entries are sorted.
    pub open spec fn wf(&self) -> bool {
        ascending(self.entries@)
    }

    /// The keys in ascending order.
    pub open spec fn keys(&self) -> Seq<u64> {
        Seq::new(self.entries@.len(), |i: int| self.entries@[i].0)
    }

    pub fn new() -> (map: Self)
        ensures
            map.wf(),
            map@ == Map::<u64, V>::empty(),
            map.entries@.len() == 0,
    {
        let map = OrderedMap { entries: Vec::new() };
        assert(map@ =~= Map::<u64, V>::empty());
        map
    }

    pub fn len(&self) -> (n: usize)
        requires
            self.wf(),
        ensures
            n == self@.dom().len(),
            n == self.entries@.len(),
            self@.dom().finite(),
    {
        proof {
            lemma_entry_count(self.entries@);
        }
        self.entries.len()
    }

    pub fn is_empty(&self) -> (empty: bool)
        requires
            self.wf(),
        ensures
            empty == (self@ == Map::<u64, V>::empty()),
            empty == (self.entries@.len() == 0),
    {
        proof {
            if self.entries@.len() > 0 {
                lemma_entry(self.entries@, 0);
            } else {
                assert(self@ =~= Map::<u64, V>::empty());
            }
        }
        self.entries.len() == 0
    }

    /// The number of keys below `key`.
    pub fn lower_bound(&self, key: u64) -> (index: usize)
        requires
            self.wf(),
        ensures
            index <= self.entries@.len(),
            forall|i: int| 0 <= i < index ==> (#[trigger] self.entries@[i]).0 < key,
            forall|i: int| index <= i < self.entries@.len() ==> (#[trigger] self.entries@[i]).0
                >= key,
    {
        let mut low: usize = 0;
        let mut high: usize = self.entries.len();
        while low < high
            invariant
                self.wf(),
                low <= high <= self.entries@.len(),
                forall|i: int| 0 <= i < low ==> (#[trigger] self.entries@[i]).0 < key,
                forall|i: int| high <= i < self.entries@.len() ==> (#[trigger] self.entries@[i]).0
                    >= key,
            decreases high - low,
        {
            let middle: usize = low + (high - low) / 2;
            if self.entries[middle].0 < key {
                low = middle + 1;
            } else {
                high = middle;
            }
        }
        low
    }

    /// The position of `key`, where it is present.
    pub fn position(&self, key: u64) -> (found: Option<usize>)
        requires
            self.wf(),
        ensures
            match found {
                Some(index) => index < self.entries@.len() && self.entries@[index as int].0 == key
                    && self@.contains_key(key) && self@[key] == self.entries@[index as int].1
                    && key_index(self.entries@, key) == index,
                None => !self@.contains_key(key),
            },
    {
        let index: usize = self.lower_bound(key);
        if index < self.entries.len() && self.entries[index].0 == key {
            proof {
                lemma_entry(self.entries@, index as int);
            }
            Some(index)
        } else {
            proof {
                if has_key(self.entries@, key) {
                    let i = key_index(self.entries@, key);
                    assert(self.entries@[i].0 == key);
                    if index < self.entries@.len() && index < i {
                        assert(self.entries@[index as int].0 < self.entries@[i].0);
                    }
                }
            }
            None
        }
    }

    pub fn contains_key(&self, key: u64) -> (found: bool)
        requires
            self.wf(),
        ensures
            found == self@.contains_key(key),
    {
        self.position(key).is_some()
    }

    pub fn get(&self, key: u64) -> (found: Option<&V>)
        requires
            self.wf(),
        ensures
            match found {
                Some(value) => self@.contains_key(key) && *value == self@[key],
                None => !self@.contains_key(key),
            },
    {
        match self.position(key) {
            Some(index) => Some(&self.entries[index].1),
            None => None,
        }
    }

    /// Borrow the value of `key` for change; the other entries stay as they are.
    pub fn get_mut(&mut self, key: u64) -> (found: Option<&mut V>)
        requires
            old(self).wf(),
        ensures
            final(self).wf(),
            match found {
                Some(value) => old(self)@.contains_key(key) && *value == old(self)@[key]
                    && final(self)@ == old(self)@.insert(key, *final(value)) && final(self).keys()
                    == old(self).keys(),
                None => !old(self)@.contains_key(key) && final(self)@ == old(self)@
                    && final(self).entries@ == old(self).entries@,
            },
    {
        match self.position(key) {
            Some(index) => {
                let ghost before = self.entries@;
                let value = &mut self.entries[index].1;
                proof {
                    lemma_update(before, index as int, *final(value));
                }
                Some(value)
            },
            None => None,
        }
    }

    /// Set the value of `key`.
    pub fn insert(&mut self, key: u64, value: V)
        requires
            old(self).wf(),
        ensures
            final(self).wf(),
            final(self)@ == old(self)@.insert(key, value),
    {
        let index: usize = self.lower_bound(key);
        let ghost before = self.entries@;
        if index < self.entries.len() && self.entries[index].0 == key {
            self.entries.set(index, (key, value));
            proof {
                lemma_update(before, index as int, value);
            }
        } else {
            proof {
                if index < self.entries@.len() {
                    assert(self.entries@[index as int].0 > key);
                }
            }
            self.entries.insert(index, (key, value));
            proof {
                lemma_insert(before, index as int, key, value);
            }
        }
    }

    /// Take the entry of `key` out.
    pub fn remove(&mut self, key: u64) -> (removed: Option<V>)
        requires
            old(self).wf(),
        ensures
            final(self).wf(),
            final(self)@ == old(self)@.remove(key),
            match removed {
                Some(value) => old(self)@.contains_key(key) && value == old(self)@[key],
                None => !old(self)@.contains_key(key),
            },
    {
        let ghost before = self.entries@;
        match self.position(key) {
            Some(index) => {
                let entry = self.entries.remove(index);
                proof {
                    lemma_remove(before, index as int);
                }
                Some(entry.1)
            },
            None => {
                assert(self@ =~= old(self)@.remove(key));
                None
            },
        }
    }
}

/// Replacing the value of one entry updates the map there.
pub proof fn lemma_update<V>(entries: Seq<(u64, V)>, index: int, value: V)
    requires
        ascending(entries),
        0 <= index < entries.len(),
    ensures
        ascending(entries.update(index, (entries[index].0, value))),
        entry_map(entries.update(index, (entries[index].0, value))) == entry_map(entries).insert(
            entries[index].0,
            value,
        ),
{
    let key = entries[index].0;
    let after = entries.update(index, (key, value));
    assert forall|i: int, j: int| 0 <= i < j < after.len() implies after[i].0 < after[j].0 by {
        assert(after[i].0 == entries[i].0);
        assert(after[j].0 == entries[j].0);
    }
    lemma_entry(after, index);
    assert forall|k: u64| has_key(after, k) == (has_key(entries, k) || k == key) by {
        if has_key(after, k) {
            let i = key_index(after, k);
            assert(entries[i].0 == k);
        }
        if has_key(entries, k) {
            let i = key_index(entries, k);
            assert(after[i].0 == k);
        }
        assert(after[index].0 == key);
    }
    assert forall|k: u64| has_key(after, k) && k != key implies entry_map(after)[k] == entry_map(
        entries,
    )[k] by {
        let i = key_index(after, k);
        assert(after[i] == entries[i]);
        lemma_entry(after, i);
        lemma_entry(entries, i);
    }
    assert(entry_map(after) =~= entry_map(entries).insert(key, value));
}

/// Inserting an entry in order adds its key to the map.
pub proof fn lemma_insert<V>(entries: Seq<(u64, V)>, index: int, key: u64, value: V)
    requires
        ascending(entries),
        0 <= index <= entries.len(),
        forall|i: int| 0 <= i < index ==> (#[trigger] entries[i]).0 < key,
        forall|i: int| index <= i < entries.len() ==> (#[trigger] entries[i]).0 > key,
    ensures
        ascending(entries.insert(index, (key, value))),
        entry_map(entries.insert(index, (key, value))) == entry_map(entries).insert(key, value),
{
    let after = entries.insert(index, (key, value));
    assert forall|i: int, j: int| 0 <= i < j < after.len() implies after[i].0 < after[j].0 by {
        if i < index {
            assert(after[i] == entries[i]);
        } else if i > index {
            assert(after[i] == entries[i - 1]);
        }
        if j < index {
            assert(after[j] == entries[j]);
        } else if j > index {
            assert(after[j] == entries[j - 1]);
        }
    }
    lemma_entry(after, index);
    assert forall|k: u64| has_key(after, k) == (has_key(entries, k) || k == key) by {
        if has_key(after, k) {
            let i = key_index(after, k);
            if i < index {
                assert(entries[i].0 == k);
            } else if i > index {
                assert(entries[i - 1].0 == k);
            }
        }
        if has_key(entries, k) {
            let i = key_index(entries, k);
            if i < index {
                assert(after[i].0 == k);
            } else {
                assert(after[i + 1].0 == k);
            }
        }
        assert(after[index].0 == key);
    }
    assert forall|k: u64| has_key(after, k) && k != key implies entry_map(after)[k] == entry_map(
        entries,
    )[k] by {
        let i = key_index(after, k);
        if i < index {
            assert(after[i] == entries[i]);
            lemma_entry(entries, i);
        } else {
            assert(after[i] == entries[i - 1]);
            lemma_entry(entries, i - 1);
        }
        lemma_entry(after, i);
    }
    assert(entry_map(after) =~= entry_map(entries).insert(key, value));
}

/// Taking an entry out removes its key from the map.
pub proof fn lemma_remove<V>(entries: Seq<(u64, V)>, index: int)
    requires
        ascending(entries),
        0 <= index < entries.len(),
    ensures
        ascending(entries.remove(index)),
        entry_map(entries.remove(index)) == entry_map(entries).remove(entries[index].0),
{
    let key = entries[index].0;
    let after = entries.remove(index);
    assert forall|i: int, j: int| 0 <= i < j < after.len() implies after[i].0 < after[j].0 by {
        let a = if i < index { i } else { i + 1 };
        let b = if j < index { j } else { j + 1 };
        assert(after[i] == entries[a]);
        assert(after[j] == entries[b]);
    }
    assert forall|k: u64| has_key(after, k) == (has_key(entries, k) && k != key) by {
        if has_key(after, k) {
            let i = key_index(after, k);
            let a = if i < index { i } else { i + 1 };
            assert(after[i] == entries[a]);
            assert(entries[a].0 == k);
            if a < index {
                assert(entries[a].0 < entries[index].0);
            } else {
                assert(entries[index].0 < entries[a].0);
            }
        }
        if has_key(entries, k) && k != key {
            let i = key_index(entries, k);
            let a = if i < index { i } else { i - 1 };
            assert(after[a] == entries[i]);
            assert(after[a].0 == k);
        }
    }
    assert forall|k: u64| has_key(after, k) implies entry_map(after)[k] == entry_map(
        entries,
    )[k] by {
        let i = key_index(after, k);
        let a = if i < index { i } else { i + 1 };
        assert(after[i] == entries[a]);
        lemma_entry(after, i);
        lemma_entry(entries, a);
    }
    assert(entry_map(after) =~= entry_map(entries).remove(key));
}

} // verus!
