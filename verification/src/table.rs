//! A small keyed table: the store behind the balances and the vaults.
//!
//! A table holds at most one value per key. Its view is the finite map from
//! the views of its keys to the views of its values; everything the rest of
//! the crate says about a table, it says about that map.

use vstd::prelude::*;

verus! {

/// A key of a [`Table`]. Two keys are the same key when their views are
/// equal, and that can be tested at run time.
pub trait Key: View + Sized {
    /// Whether `self` and `other` are the same key.
    fn same_key(&self, other: &Self) -> (same: bool)
        ensures
            same == (self@ == other@),
    ;
}

impl Key for String {
    fn same_key(&self, other: &Self) -> (same: bool) {
        *self == *other
    }
}

/// A table from keys to values, with at most one entry per key.
#[derive(Clone, Debug)]
pub struct Table<K: Key, V: View> {
    entries: Vec<(K, V)>,
}

/// Whether entry `i` of `entries` is the one for `key`.
spec fn keyed_at<K: View, V>(entries: Seq<(K, V)>, i: int, key: K::V) -> bool {
    0 <= i < entries.len() && entries[i].0@ == key
}

/// Whether `entries` has an entry for `key`.
spec fn has_key<K: View, V>(entries: Seq<(K, V)>, key: K::V) -> bool {
    exists|i: int| keyed_at(entries, i, key)
}

/// The place of an entry for `key` in `entries`, if there is one.
spec fn slot_of<K: View, V>(entries: Seq<(K, V)>, key: K::V) -> int {
    choose|i: int| keyed_at(entries, i, key)
}

/// Whether no two entries share a key.
spec fn distinct_keys<K: View, V>(entries: Seq<(K, V)>) -> bool {
    forall|i: int, j: int|
        0 <= i < entries.len() && 0 <= j < entries.len() && i != j ==> entries[i].0@
            != entries[j].0@
}

/// The map that `entries` stands for.
spec fn map_of<K: View, V: View>(entries: Seq<(K, V)>) -> Map<K::V, V::V> {
    Map::new(|key: K::V| has_key(entries, key), |key: K::V| entries[slot_of(entries, key)].1@)
}

/// With distinct keys, the entry at `i` is what the map holds for its key.
proof fn lemma_map_of_entry<K: View, V: View>(entries: Seq<(K, V)>, i: int)
    requires
        distinct_keys(entries),
        0 <= i < entries.len(),
    ensures
        map_of(entries).contains_key(entries[i].0@),
        map_of(entries)[entries[i].0@] == entries[i].1@,
{
    let key = entries[i].0@;
    assert(keyed_at(entries, i, key));
    assert(keyed_at(entries, slot_of(entries, key), key));
}

/// Appending an entry with a new key inserts it into the map.
proof fn lemma_map_of_push<K: View, V: View>(entries: Seq<(K, V)>, entry: (K, V))
    requires
        distinct_keys(entries),
        !has_key(entries, entry.0@),
    ensures
        distinct_keys(entries.push(entry)),
        map_of(entries.push(entry)) == map_of(entries).insert(entry.0@, entry.1@),
{
    let after = entries.push(entry);
    let n = entries.len() as int;
    assert forall|i: int, j: int|
        0 <= i < after.len() && 0 <= j < after.len() && i != j implies after[i].0@
        != after[j].0@ by {
        if i < n && j < n {
        } else if i < n {
            assert(!keyed_at(entries, i, entry.0@));
        } else {
            assert(!keyed_at(entries, j, entry.0@));
        }
    }
    assert forall|key: K::V| has_key(after, key) <==> (key == entry.0@ || has_key(
        entries,
        key,
    )) by {
        if has_key(after, key) {
            let i = slot_of(after, key);
            if i < n {
                assert(keyed_at(entries, i, key));
            }
        }
        if key == entry.0@ {
            assert(keyed_at(after, n, key));
        }
        if has_key(entries, key) {
            assert(keyed_at(after, slot_of(entries, key), key));
        }
    }
    assert forall|key: K::V| has_key(after, key) implies #[trigger] map_of(after)[key] == map_of(
        entries,
    ).insert(entry.0@, entry.1@)[key] by {
        let i = slot_of(after, key);
        lemma_map_of_entry(after, i);
        if i < n {
            assert(keyed_at(entries, i, key));
            lemma_map_of_entry(entries, i);
        }
    }
    assert(map_of(after) =~= map_of(entries).insert(entry.0@, entry.1@));
}

/// Replacing an entry by one with the same key overwrites its value in the map.
proof fn lemma_map_of_update<K: View, V: View>(entries: Seq<(K, V)>, i: int, entry: (K, V))
    requires
        distinct_keys(entries),
        0 <= i < entries.len(),
        entries[i].0@ == entry.0@,
    ensures
        distinct_keys(entries.update(i, entry)),
        map_of(entries.update(i, entry)) == map_of(entries).insert(entry.0@, entry.1@),
{
    let after = entries.update(i, entry);
    assert forall|a: int, b: int|
        0 <= a < after.len() && 0 <= b < after.len() && a != b implies after[a].0@
        != after[b].0@ by {
        assert(after[a].0@ == entries[a].0@);
        assert(after[b].0@ == entries[b].0@);
    }
    assert forall|key: K::V| has_key(after, key) <==> (key == entry.0@ || has_key(
        entries,
        key,
    )) by {
        if has_key(after, key) {
            let j = slot_of(after, key);
            assert(keyed_at(entries, j, key));
        }
        if key == entry.0@ {
            assert(keyed_at(after, i, key));
        }
        if has_key(entries, key) {
            assert(keyed_at(after, slot_of(entries, key), key));
        }
    }
    assert forall|key: K::V| has_key(after, key) implies #[trigger] map_of(after)[key] == map_of(
        entries,
    ).insert(entry.0@, entry.1@)[key] by {
        let j = slot_of(after, key);
        lemma_map_of_entry(after, j);
        assert(keyed_at(entries, j, key));
        lemma_map_of_entry(entries, j);
    }
    assert(map_of(after) =~= map_of(entries).insert(entry.0@, entry.1@));
}

/// Taking an entry out removes its key from the map.
proof fn lemma_map_of_remove<K: View, V: View>(entries: Seq<(K, V)>, i: int)
    requires
        distinct_keys(entries),
        0 <= i < entries.len(),
    ensures
        distinct_keys(entries.remove(i)),
        map_of(entries.remove(i)) == map_of(entries).remove(entries[i].0@),
{
    let after = entries.remove(i);
    let gone = entries[i].0@;
    assert forall|a: int| 0 <= a < after.len() implies after[a] == entries[if a < i {
        a
    } else {
        a + 1
    }] by {}
    assert forall|a: int, b: int|
        0 <= a < after.len() && 0 <= b < after.len() && a != b implies after[a].0@
        != after[b].0@ by {
        let a0 = if a < i { a } else { a + 1 };
        let b0 = if b < i { b } else { b + 1 };
        assert(after[a] == entries[a0]);
        assert(after[b] == entries[b0]);
    }
    assert forall|key: K::V| has_key(after, key) <==> (key != gone && has_key(entries, key)) by {
        if has_key(after, key) {
            let a = slot_of(after, key);
            let a0 = if a < i { a } else { a + 1 };
            assert(after[a] == entries[a0]);
            assert(keyed_at(entries, a0, key));
        }
        if key != gone && has_key(entries, key) {
            let j = slot_of(entries, key);
            let a = if j < i { j } else { j - 1 };
            assert(after[a] == entries[j]);
            assert(keyed_at(after, a, key));
        }
    }
    assert forall|key: K::V| has_key(after, key) implies #[trigger] map_of(after)[key] == map_of(
        entries,
    ).remove(gone)[key] by {
        let a = slot_of(after, key);
        let a0 = if a < i { a } else { a + 1 };
        assert(after[a] == entries[a0]);
        lemma_map_of_entry(after, a);
        lemma_map_of_entry(entries, a0);
    }
    assert(map_of(after) =~= map_of(entries).remove(gone));
}

/// The map of any list of entries has a finite domain.
proof fn lemma_map_of_finite<K: View, V: View>(entries: Seq<(K, V)>)
    ensures
        map_of(entries).dom().finite(),
    decreases entries.len(),
{
    if entries.len() == 0 {
        assert forall|key: K::V| !has_key(entries, key) by {
            assert forall|i: int| !keyed_at(entries, i, key) by {}
        }
        assert(map_of(entries).dom() =~= Set::<K::V>::empty());
    } else {
        let front = entries.drop_last();
        let last = entries.last();
        lemma_map_of_finite(front);
        assert forall|key: K::V| has_key(entries, key) <==> (key == last.0@ || has_key(
            front,
            key,
        )) by {
            if has_key(entries, key) {
                let i = slot_of(entries, key);
                if i < front.len() {
                    assert(keyed_at(front, i, key));
                }
            }
            if key == last.0@ {
                assert(keyed_at(entries, entries.len() - 1, key));
            }
            if has_key(front, key) {
                assert(keyed_at(entries, slot_of(front, key), key));
            }
        }
        assert(map_of(entries).dom() =~= map_of(front).dom().insert(last.0@));
    }
}

impl<K: Key, V: View> View for Table<K, V> {
    type V = Map<K::V, V::V>;

    closed spec fn view(&self) -> Map<K::V, V::V> {
        map_of(self.entries@)
    }
}

impl<K: Key, V: View> Table<K, V> {
    /// Whether the table is well formed: it holds one entry per key.
    pub closed spec fn wf(&self) -> bool {
        distinct_keys(self.entries@)
    }

    /// A table holds finitely many entries.
    pub proof fn lemma_finite(&self)
        ensures
            self@.dom().finite(),
    {
        lemma_map_of_finite(self.entries@);
    }

    /// The empty table.
    pub fn new() -> (table: Self)
        ensures
            table.wf(),
            table@ == Map::<K::V, V::V>::empty(),
    {
        let table = Table { entries: Vec::new() };
        proof {
            lemma_map_of_absent_all::<K, V>(table.entries@);
        }
        table
    }

    /// The place of the entry for `key`, if the table has one.
    fn find(&self, key: &K) -> (found: Option<usize>)
        ensures
            match found {
                Some(i) => keyed_at(self.entries@, i as int, key@),
                None => !has_key(self.entries@, key@),
            },
    {
        let mut i: usize = 0;
        while i < self.entries.len()
            invariant
                i <= self.entries@.len(),
                forall|j: int| 0 <= j < i ==> self.entries@[j].0@ != key@,
            decreases self.entries@.len() - i,
        {
            if self.entries[i].0.same_key(key) {
                return Some(i);
            }
            i += 1;
        }
        proof {
            assert forall|j: int| !keyed_at(self.entries@, j, key@) by {}
        }
        None
    }

    /// The number of entries.
    pub closed spec fn spec_len(&self) -> nat {
        self.entries@.len()
    }

    /// The key and the value of entry `i`, in the order in which the table
    /// keeps its entries.
    pub closed spec fn spec_entry(&self, i: int) -> (K::V, V::V) {
        (self.entries@[i].0@, self.entries@[i].1@)
    }

    /// The map made of the first `n` entries.
    pub closed spec fn spec_prefix(&self, n: int) -> Map<K::V, V::V> {
        map_of(self.entries@.take(n))
    }

    /// The first no entries make the empty map, and all entries make the
    /// table's own.
    pub proof fn lemma_prefix_ends(&self)
        ensures
            self.spec_prefix(0) == Map::<K::V, V::V>::empty(),
            self.spec_prefix(self.spec_len() as int) == self@,
    {
        lemma_map_of_absent_all::<K, V>(self.entries@.take(0));
        assert(self.entries@.take(self.entries@.len() as int) =~= self.entries@);
    }

    /// Entry `i` brings a key that the entries before it do not have, and
    /// the first `i + 1` entries make the map of the first `i` with that
    /// entry inserted.
    pub proof fn lemma_prefix_step(&self, i: int)
        requires
            self.wf(),
            0 <= i < self.spec_len(),
        ensures
            !self.spec_prefix(i).contains_key(self.spec_entry(i).0),
            self.spec_prefix(i).dom().finite(),
            self.spec_prefix(i + 1) == self.spec_prefix(i).insert(
                self.spec_entry(i).0,
                self.spec_entry(i).1,
            ),
            self@.contains_key(self.spec_entry(i).0),
            self@[self.spec_entry(i).0] == self.spec_entry(i).1,
    {
        let entries = self.entries@;
        let front = entries.take(i);
        let key = entries[i].0@;
        if has_key(front, key) {
            let j = slot_of(front, key);
            assert(keyed_at(front, j, key));
            assert(entries[j].0@ == key);
        }
        assert forall|a: int, b: int|
            0 <= a < front.len() && 0 <= b < front.len() && a != b implies front[a].0@
            != front[b].0@ by {
            assert(front[a] == entries[a]);
            assert(front[b] == entries[b]);
        }
        lemma_map_of_push(front, entries[i]);
        assert(entries.take(i + 1) =~= front.push(entries[i]));
        lemma_map_of_finite(front);
        lemma_map_of_entry(entries, i);
    }

    /// The number of entries.
    pub fn len(&self) -> (n: usize)
        ensures
            n == self.spec_len(),
    {
        self.entries.len()
    }

    /// The key and the value of entry `i`.
    pub fn entry(&self, i: usize) -> (entry: (&K, &V))
        requires
            i < self.spec_len(),
        ensures
            (entry.0@, entry.1@) == self.spec_entry(i as int),
    {
        (&self.entries[i].0, &self.entries[i].1)
    }

    /// Whether the table has an entry for `key`.
    pub fn contains_key(&self, key: &K) -> (present: bool)
        ensures
            present == self@.contains_key(key@),
    {
        self.find(key).is_some()
    }

    /// The value stored for `key`, if any.
    pub fn get(&self, key: &K) -> (value: Option<&V>)
        requires
            self.wf(),
        ensures
            match value {
                Some(v) => self@.contains_key(key@) && v@ == self@[key@],
                None => !self@.contains_key(key@),
            },
    {
        match self.find(key) {
            Some(i) => {
                proof {
                    lemma_map_of_entry(self.entries@, i as int);
                }
                Some(&self.entries[i].1)
            },
            None => None,
        }
    }

    /// Stores `value` for `key`, in place of whatever was stored for it.
    pub fn insert(&mut self, key: K, value: V)
        requires
            old(self).wf(),
        ensures
            final(self).wf(),
            final(self)@ == old(self)@.insert(key@, value@),
    {
        match self.find(&key) {
            Some(i) => {
                proof {
                    lemma_map_of_update(self.entries@, i as int, (key, value));
                }
                self.entries[i] = (key, value);
            },
            None => {
                proof {
                    lemma_map_of_push(self.entries@, (key, value));
                }
                self.entries.push((key, value));
            },
        }
    }

    /// Takes the entry for `key` out of the table and returns its value.
    pub fn remove(&mut self, key: &K) -> (value: Option<V>)
        requires
            old(self).wf(),
        ensures
            final(self).wf(),
            final(self)@ == old(self)@.remove(key@),
            match value {
                Some(v) => old(self)@.contains_key(key@) && v@ == old(self)@[key@],
                None => !old(self)@.contains_key(key@) && *final(self) == *old(self),
            },
    {
        match self.find(key) {
            Some(i) => {
                proof {
                    lemma_map_of_entry(self.entries@, i as int);
                    lemma_map_of_remove(self.entries@, i as int);
                }
                let entry = self.entries.remove(i);
                Some(entry.1)
            },
            None => {
                assert(self@.remove(key@) =~= self@);
                None
            },
        }
    }
}

/// A list without entries stands for the empty map.
proof fn lemma_map_of_absent_all<K: View, V: View>(entries: Seq<(K, V)>)
    requires
        entries.len() == 0,
    ensures
        map_of(entries) == Map::<K::V, V::V>::empty(),
{
    assert forall|key: K::V| !has_key(entries, key) by {
        assert forall|i: int| !keyed_at(entries, i, key) by {}
    }
    assert(map_of(entries) =~= Map::<K::V, V::V>::empty());
}

} // verus!
