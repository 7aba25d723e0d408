//! A small association table: unique keys, insertion order, a `Map` as its
//! model.

use vstd::prelude::*;

verus! {

/// A key two tables agree about: its executable equality is equality.
pub trait TableKey: Copy {
    fn same(&self, other: &Self) -> (equal: bool)
        ensures
            equal == (*self == *other),
    ;
}

/// Pairs with distinct keys, in the order the keys first arrived.
#[derive(Debug)]
pub struct Table<K, V> {
    entries: Vec<(K, V)>,
}

/// No key occurs twice.
pub open spec fn keys_distinct<K, V>(entries: Seq<(K, V)>) -> bool {
    forall|i: int, j: int|
        0 <= i < entries.len() && 0 <= j < entries.len() && i != j
            ==> #[trigger] entries[i].0 != #[trigger] entries[j].0
}

/// Where a key stands.
pub open spec fn key_at<K, V>(entries: Seq<(K, V)>, key: K, i: int) -> bool {
    0 <= i < entries.len() && entries[i].0 == key
}

/// The pairs as a map.
pub open spec fn entries_map<K, V>(entries: Seq<(K, V)>) -> Map<K, V> {
    Map::new(
        |k: K| exists|i: int| key_at(entries, k, i),
        |k: K| entries[choose|i: int| key_at(entries, k, i)].1,
    )
}

impl<K, V> Table<K, V> {
    /// The pairs, in order.
    pub closed spec fn entries(&self) -> Seq<(K, V)> {
        self.entries@
    }

    /// The invariant: a key names at most one pair.
    pub open spec fn wf(&self) -> bool {
        keys_distinct(self.entries())
    }
}

impl<K, V> View for Table<K, V> {
    type V = Map<K, V>;

    open spec fn view(&self) -> Map<K, V> {
        entries_map(self.entries())
    }
}

/// The pair at an index is what the map holds for its key.
pub proof fn lemma_entry_in_map<K, V>(entries: Seq<(K, V)>, i: int)
    requires
        keys_distinct(entries),
        0 <= i < entries.len(),
    ensures
        entries_map(entries).dom().contains(entries[i].0),
        entries_map(entries)[entries[i].0] == entries[i].1,
{
    assert(key_at(entries, entries[i].0, i));
}

/// A key of the map stands at some index.
pub proof fn lemma_key_has_index<K, V>(entries: Seq<(K, V)>, key: K) -> (i: int)
    requires
        keys_distinct(entries),
        entries_map(entries).dom().contains(key),
    ensures
        key_at(entries, key, i),
        entries[i].1 == entries_map(entries)[key],
{
    choose|i: int| key_at(entries, key, i)
}

/// Appending a pair under a new key inserts it.
pub proof fn lemma_push<K, V>(entries: Seq<(K, V)>, key: K, value: V)
    requires
        keys_distinct(entries),
        !entries_map(entries).dom().contains(key),
    ensures
        keys_distinct(entries.push((key, value))),
        entries_map(entries.push((key, value))) == entries_map(entries).insert(key, value),
{
    let after = entries.push((key, value));
    assert forall|i: int, j: int|
        0 <= i < after.len() && 0 <= j < after.len() && i != j implies #[trigger] after[i].0
        != #[trigger] after[j].0 by {
        if i < entries.len() {
            lemma_entry_in_map(entries, i);
        }
        if j < entries.len() {
            lemma_entry_in_map(entries, j);
        }
    }
    let want = entries_map(entries).insert(key, value);
    assert forall|k: K| entries_map(after).dom().contains(k) == want.dom().contains(k) by {
        if want.dom().contains(k) {
            if k == key {
                assert(key_at(after, k, entries.len() as int));
            } else {
                let i = lemma_key_has_index(entries, k);
                assert(key_at(after, k, i));
            }
        }
        if entries_map(after).dom().contains(k) {
            let i = lemma_key_has_index(after, k);
            if i < entries.len() {
                assert(key_at(entries, k, i));
            }
        }
    }
    assert forall|k: K| entries_map(after).dom().contains(k) implies entries_map(after)[k]
        == want[k] by {
        let i = lemma_key_has_index(after, k);
        lemma_entry_in_map(after, i);
        if i < entries.len() {
            lemma_entry_in_map(entries, i);
        }
    }
    assert(entries_map(after) =~= want);
}

/// Replacing the value at a key's index inserts it.
pub proof fn lemma_update<K, V>(entries: Seq<(K, V)>, i: int, value: V)
    requires
        keys_distinct(entries),
        0 <= i < entries.len(),
    ensures
        keys_distinct(entries.update(i, (entries[i].0, value))),
        entries_map(entries.update(i, (entries[i].0, value))) == entries_map(entries).insert(
            entries[i].0,
            value,
        ),
{
    let key = entries[i].0;
    let after = entries.update(i, (key, value));
    let want = entries_map(entries).insert(key, value);
    assert forall|a: int, b: int|
        0 <= a < after.len() && 0 <= b < after.len() && a != b implies #[trigger] after[a].0
        != #[trigger] after[b].0 by {
        assert(after[a].0 == entries[a].0 && after[b].0 == entries[b].0);
    }
    assert forall|k: K| entries_map(after).dom().contains(k) == want.dom().contains(k) by {
        if want.dom().contains(k) {
            if k == key {
                assert(key_at(after, k, i));
            } else {
                let j = lemma_key_has_index(entries, k);
                assert(key_at(after, k, j));
            }
        }
        if entries_map(after).dom().contains(k) {
            let j = lemma_key_has_index(after, k);
            assert(key_at(entries, k, j));
        }
    }
    assert forall|k: K| entries_map(after).dom().contains(k) implies entries_map(after)[k]
        == want[k] by {
        let j = lemma_key_has_index(after, k);
        lemma_entry_in_map(after, j);
        lemma_entry_in_map(entries, j);
    }
    assert(entries_map(after) =~= want);
}

/// Taking a pair out removes its key.
pub proof fn lemma_remove<K, V>(entries: Seq<(K, V)>, i: int)
    requires
        keys_distinct(entries),
        0 <= i < entries.len(),
    ensures
        keys_distinct(entries.remove(i)),
        entries_map(entries.remove(i)) == entries_map(entries).remove(entries[i].0),
{
    let key = entries[i].0;
    let after = entries.remove(i);
    let want = entries_map(entries).remove(key);
    assert forall|a: int, b: int|
        0 <= a < after.len() && 0 <= b < after.len() && a != b implies #[trigger] after[a].0
        != #[trigger] after[b].0 by {
        let x = if a < i { a } else { a + 1 };
        let y = if b < i { b } else { b + 1 };
        assert(after[a] == entries[x] && after[b] == entries[y]);
    }
    assert forall|k: K| entries_map(after).dom().contains(k) == want.dom().contains(k) by {
        if want.dom().contains(k) {
            let j = lemma_key_has_index(entries, k);
            assert(key_at(after, k, if j < i { j } else { j - 1 }));
        }
        if entries_map(after).dom().contains(k) {
            let j = lemma_key_has_index(after, k);
            let x = if j < i { j } else { j + 1 };
            assert(after[j] == entries[x]);
            assert(key_at(entries, k, x));
        }
    }
    assert forall|k: K| entries_map(after).dom().contains(k) implies entries_map(after)[k]
        == want[k] by {
        let j = lemma_key_has_index(after, k);
        lemma_entry_in_map(after, j);
        let x = if j < i { j } else { j + 1 };
        assert(after[j] == entries[x]);
        lemma_entry_in_map(entries, x);
    }
    assert(entries_map(after) =~= want);
}

/// A table with as many pairs as its map has keys.
pub proof fn lemma_len<K, V>(entries: Seq<(K, V)>)
    requires
        keys_distinct(entries),
    ensures
        entries_map(entries).dom().finite(),
        entries_map(entries).dom().len() == entries.len(),
    decreases entries.len(),
{
    if entries.len() == 0 {
        assert(entries_map(entries).dom() =~= Set::empty());
    } else {
        let last = entries.len() - 1;
        let before = entries.remove(last);
        lemma_remove(entries, last);
        lemma_entry_in_map(entries, last);
        lemma_len(before);
        assert(entries_map(entries).dom() =~= entries_map(before).dom().insert(entries[last].0));
    }
}

impl<K: TableKey, V> Table<K, V> {
    #[must_use]
    pub fn new() -> (t: Self)
        ensures
            t.wf(),
            t.entries() == Seq::<(K, V)>::empty(),
            t@ == Map::<K, V>::empty(),
    {
        let t = Table { entries: Vec::new() };
        assert(t@ =~= Map::<K, V>::empty());
        t
    }

    /// The keys are finitely many, and they can be counted.
    pub proof fn keys_are_counted(&self)
        requires
            self.wf(),
        ensures
            self@.dom().finite(),
            self@.dom().len() == self.entries().len(),
            self.entries().len() <= usize::MAX,
    {
        lemma_len(self.entries@);
        assert(self.entries.len() == self.entries@.len());
    }

    /// How many keys the table holds.
    #[must_use]
    pub fn len(&self) -> (n: usize)
        requires
            self.wf(),
        ensures
            n == self.entries().len(),
            n == self@.dom().len(),
            self@.dom().finite(),
    {
        proof {
            lemma_len(self.entries@);
        }
        self.entries.len()
    }

    /// Where `key` stands.
    #[must_use]
    pub fn find(&self, key: K) -> (at: Option<usize>)
        requires
            self.wf(),
        ensures
            at is Some == self@.dom().contains(key),
            at matches Some(i) ==> key_at(self.entries(), key, i as int) && self.entries()[i as int].1
                == self@[key],
    {
        let mut i: usize = 0;
        while i < self.entries.len()
            invariant
                self.wf(),
                i <= self.entries@.len(),
                forall|j: int| 0 <= j < i ==> (#[trigger] self.entries@[j]).0 != key,
            decreases self.entries.len() - i,
        {
            if self.entries[i].0.same(&key) {
                proof {
                    lemma_entry_in_map(self.entries@, i as int);
                }
                return Some(i);
            }
            i = i + 1;
        }
        proof {
            if self@.dom().contains(key) {
                let j = lemma_key_has_index(self.entries@, key);
            }
        }
        None
    }

    /// The key at an index.
    #[must_use]
    pub fn key(&self, i: usize) -> (key: K)
        requires
            self.wf(),
            i < self.entries().len(),
        ensures
            key == self.entries()[i as int].0,
            self@.dom().contains(key),
    {
        proof {
            lemma_entry_in_map(self.entries@, i as int);
        }
        self.entries[i].0
    }

    /// The value at an index.
    #[must_use]
    pub fn value(&self, i: usize) -> (value: &V)
        requires
            self.wf(),
            i < self.entries().len(),
        ensures
            *value == self.entries()[i as int].1,
            *value == self@[self.entries()[i as int].0],
    {
        proof {
            lemma_entry_in_map(self.entries@, i as int);
        }
        &self.entries[i].1
    }

    #[must_use]
    pub fn contains(&self, key: K) -> (held: bool)
        requires
            self.wf(),
        ensures
            held == self@.dom().contains(key),
    {
        self.find(key).is_some()
    }

    #[must_use]
    pub fn get(&self, key: K) -> (value: Option<&V>)
        requires
            self.wf(),
        ensures
            value is Some == self@.dom().contains(key),
            value matches Some(v) ==> *v == self@[key],
    {
        match self.find(key) {
            Some(i) => Some(&self.entries[i].1),
            None => None,
        }
    }

    /// Bind `key`, replacing what it named.
    pub fn insert(&mut self, key: K, value: V)
        requires
            old(self).wf(),
        ensures
            final(self).wf(),
            final(self)@ == old(self)@.insert(key, value),
            old(self)@.dom().contains(key) ==> final(self).entries().len() == old(self).entries().len(),
            !old(self)@.dom().contains(key) ==> final(self).entries() == old(self).entries().push(
                (key, value),
            ),
    {
        match self.find(key) {
            Some(i) => {
                proof {
                    lemma_update(self.entries@, i as int, value);
                }
                self.entries.set(i, (key, value));
            },
            None => {
                proof {
                    lemma_push(self.entries@, key, value);
                }
                self.entries.push((key, value));
            },
        }
    }

    /// The value at an index, to be changed in place.
    pub fn value_mut(&mut self, i: usize) -> (value: &mut V)
        requires
            old(self).wf(),
            i < old(self).entries().len(),
        ensures
            *value == old(self).entries()[i as int].1,
            *value == old(self)@[old(self).entries()[i as int].0],
            old(self)@.dom().contains(old(self).entries()[i as int].0),
            final(self).wf(),
            final(self).entries() == old(self).entries().update(
                i as int,
                (old(self).entries()[i as int].0, *final(value)),
            ),
            final(self)@ == old(self)@.insert(old(self).entries()[i as int].0, *final(value)),
    {
        proof {
            lemma_entry_in_map(self.entries@, i as int);
            let entries = self.entries@;
            let key = entries[i as int].0;
            assert forall|v: V| #![trigger entries.update(i as int, (key, v))]
                keys_distinct(entries.update(i as int, (key, v))) && entries_map(
                    entries.update(i as int, (key, v)),
                ) == entries_map(entries).insert(key, v) by {
                lemma_update(entries, i as int, v);
            }
        }
        &mut self.entries[i].1
    }

    /// Put a new value under the key at an index.
    pub fn set_at(&mut self, i: usize, value: V)
        requires
            old(self).wf(),
            i < old(self).entries().len(),
        ensures
            final(self).wf(),
            final(self).entries() == old(self).entries().update(
                i as int,
                (old(self).entries()[i as int].0, value),
            ),
            final(self)@ == old(self)@.insert(old(self).entries()[i as int].0, value),
    {
        proof {
            lemma_update(self.entries@, i as int, value);
        }
        let key = self.entries[i].0;
        self.entries.set(i, (key, value));
    }

    /// Take the pair at an index out, keeping the order of the rest.
    pub fn remove_at(&mut self, i: usize) -> (pair: (K, V))
        requires
            old(self).wf(),
            i < old(self).entries().len(),
        ensures
            final(self).wf(),
            pair == old(self).entries()[i as int],
            pair.1 == old(self)@[pair.0],
            old(self)@.dom().contains(pair.0),
            final(self).entries() == old(self).entries().remove(i as int),
            final(self)@ == old(self)@.remove(pair.0),
    {
        proof {
            lemma_remove(self.entries@, i as int);
            lemma_entry_in_map(self.entries@, i as int);
        }
        self.entries.remove(i)
    }

    /// Take a key out.
    pub fn remove(&mut self, key: K) -> (value: Option<V>)
        requires
            old(self).wf(),
        ensures
            final(self).wf(),
            final(self)@ == old(self)@.remove(key),
            value is Some == old(self)@.dom().contains(key),
            value matches Some(v) ==> v == old(self)@[key],
    {
        match self.find(key) {
            Some(i) => {
                let pair = self.remove_at(i);
                Some(pair.1)
            },
            None => {
                assert(self@ =~= self@.remove(key));
                None
            },
        }
    }
}

} // verus!
