//! A map from strings to values that keeps its keys in the order in which
//! they were first inserted.
//!
//! The specification that vstd gives `HashMap` holds for key types with a
//! key model, which `String` has none of. So the map is a list that is
//! searched from its start, and what a hash map gives, that no key occurs
//! twice, is what `wf` states.

use crate::text::str_eq;
use vstd::prelude::*;

verus! {

/// Whether no key occurs twice in a list of entries.
pub open spec fn distinct_keys<T>(entries: Seq<(Seq<char>, T)>) -> bool {
    forall|i: int, j: int| 0 <= i < j < entries.len() ==> entries[i].0 != entries[j].0
}

/// Position of `key` in `entries`, or the length of `entries` where it is
/// not a key.
pub open spec fn key_index<T>(entries: Seq<(Seq<char>, T)>, key: Seq<char>) -> int
    decreases entries.len(),
{
    if entries.len() == 0 {
        0
    } else if entries[0].0 == key {
        0
    } else {
        1 + key_index(entries.drop_first(), key)
    }
}

/// The map that a list of entries stands for. Where a key occurs twice, its
/// first entry counts.
pub open spec fn entries_map<T>(entries: Seq<(Seq<char>, T)>) -> Map<Seq<char>, T> {
    Map::new(
        |k: Seq<char>| key_index(entries, k) < entries.len(),
        |k: Seq<char>| entries[key_index(entries, k)].1,
    )
}

/// What `key_index` finds: the first entry of the key, nothing of the key
/// before it.
pub proof fn lemma_key_index<T>(entries: Seq<(Seq<char>, T)>, key: Seq<char>)
    ensures
        0 <= key_index(entries, key) <= entries.len(),
        key_index(entries, key) < entries.len() ==> entries[key_index(entries, key)].0 == key,
        forall|j: int| 0 <= j < key_index(entries, key) ==> entries[j].0 != key,
    decreases entries.len(),
{
    if entries.len() > 0 && entries[0].0 != key {
        lemma_key_index(entries.drop_first(), key);
        assert forall|j: int| 0 <= j < key_index(entries, key) implies entries[j].0 != key by {
            if j > 0 {
                assert(entries.drop_first()[j - 1] == entries[j]);
            }
        }
    }
}

/// The position of a key is the first place where it stands.
pub proof fn lemma_key_index_is<T>(entries: Seq<(Seq<char>, T)>, key: Seq<char>, i: int)
    requires
        0 <= i <= entries.len(),
        forall|j: int| 0 <= j < i ==> entries[j].0 != key,
        i < entries.len() ==> entries[i].0 == key,
    ensures
        key_index(entries, key) == i,
{
    lemma_key_index(entries, key);
    let k = key_index(entries, key);
    if k < i {
        assert(entries[k].0 == key);
    } else if k > i {
        assert(entries[i].0 == key);
    }
}

/// Where a key stands once one more entry is added.
pub proof fn lemma_key_index_push<T>(
    entries: Seq<(Seq<char>, T)>,
    key: Seq<char>,
    value: T,
    k: Seq<char>,
)
    ensures
        key_index(entries.push((key, value)), k) == if key_index(entries, k) < entries.len() {
            key_index(entries, k)
        } else if k == key {
            entries.len() as int
        } else {
            entries.len() as int + 1
        },
{
    let after = entries.push((key, value));
    lemma_key_index(entries, k);
    let b = key_index(entries, k);
    assert forall|j: int| 0 <= j < b implies after[j].0 != k by {
        assert(after[j] == entries[j]);
    }
    if b < entries.len() {
        assert(after[b] == entries[b]);
        lemma_key_index_is(after, k, b);
    } else if k == key {
        lemma_key_index_is(after, k, b);
    } else {
        lemma_key_index_is(after, k, b + 1);
    }
}

/// A new key added behind a list is written into the map.
pub proof fn lemma_entries_map_push<T>(entries: Seq<(Seq<char>, T)>, key: Seq<char>, value: T)
    requires
        key_index(entries, key) == entries.len(),
    ensures
        entries_map(entries.push((key, value))) == entries_map(entries).insert(key, value),
{
    let after = entries.push((key, value));
    assert forall|k: Seq<char>|
        #[trigger] key_index(after, k) == if k == key {
            entries.len() as int
        } else if key_index(entries, k) < entries.len() {
            key_index(entries, k)
        } else {
            after.len() as int
        } by {
        lemma_key_index(entries, k);
        let b = key_index(entries, k);
        assert forall|j: int| 0 <= j < b implies after[j].0 != k by {
            assert(after[j] == entries[j]);
        }
        if k == key {
            lemma_key_index_is(after, k, b);
        } else if b < entries.len() {
            assert(after[b] == entries[b]);
            lemma_key_index_is(after, k, b);
        } else {
            lemma_key_index_is(after, k, b + 1);
        }
    }
    let m1 = entries_map(after);
    let m2 = entries_map(entries).insert(key, value);
    assert forall|k: Seq<char>| m1.contains_key(k) == m2.contains_key(k) by {
        let a = key_index(after, k);
    }
    assert forall|k: Seq<char>| m1.contains_key(k) implies m1[k] == m2[k] by {
        let a = key_index(after, k);
        lemma_key_index(entries, k);
        if k != key {
            assert(after[a] == entries[a]);
        }
    }
    assert(m1 =~= m2);
}

/// A value put in the place of a key's first entry is written into the
/// map.
pub proof fn lemma_entries_map_update<T>(entries: Seq<(Seq<char>, T)>, i: int, value: T)
    requires
        0 <= i < entries.len(),
        key_index(entries, entries[i].0) == i,
    ensures
        entries_map(entries.update(i, (entries[i].0, value))) == entries_map(entries).insert(
            entries[i].0,
            value,
        ),
{
    let key = entries[i].0;
    let after = entries.update(i, (key, value));
    assert forall|k: Seq<char>| #[trigger] key_index(after, k) == key_index(entries, k) by {
        lemma_key_index(entries, k);
        let b = key_index(entries, k);
        assert forall|j: int| 0 <= j < b implies after[j].0 != k by {
            assert(0 <= j < entries.len());
            assert(after[j].0 == entries[j].0);
        }
        if b < entries.len() {
            assert(after[b].0 == entries[b].0);
        }
        lemma_key_index_is(after, k, b);
    }
    lemma_key_index(entries, key);
    let m1 = entries_map(after);
    let m2 = entries_map(entries).insert(key, value);
    assert forall|k: Seq<char>| m1.contains_key(k) == m2.contains_key(k) by {
        let a = key_index(after, k);
    }
    assert forall|k: Seq<char>| m1.contains_key(k) implies m1[k] == m2[k] by {
        let a = key_index(after, k);
        lemma_key_index(entries, k);
        if k != key {
            assert(a != i);
            assert(after[a] == entries[a]);
        }
    }
    assert(m1 =~= m2);
}

/// Writing a key where it stands, or adding a new one, keeps keys distinct.
pub proof fn lemma_distinct_after_insert<T>(entries: Seq<(Seq<char>, T)>, key: Seq<char>, value: T)
    requires
        distinct_keys(entries),
    ensures
        key_index(entries, key) < entries.len() ==> distinct_keys(
            entries.update(key_index(entries, key), (key, value)),
        ),
        key_index(entries, key) == entries.len() ==> distinct_keys(entries.push((key, value))),
{
    lemma_key_index(entries, key);
    let at = key_index(entries, key);
    if at < entries.len() {
        let after = entries.update(at, (key, value));
        assert forall|i: int, j: int| 0 <= i < j < after.len() implies after[i].0 != after[j].0 by {
            assert(after[i].0 == entries[i].0);
            assert(after[j].0 == entries[j].0);
        }
    } else {
        let after = entries.push((key, value));
        assert forall|i: int, j: int| 0 <= i < j < after.len() implies after[i].0 != after[j].0 by {
            if j < entries.len() {
                assert(after[i] == entries[i]);
                assert(after[j] == entries[j]);
            } else {
                assert(after[i] == entries[i]);
            }
        }
    }
}

/// The map of the first `n + 1` entries is the map of the first `n` with the
/// next entry written into it, where no key occurs twice.
pub proof fn lemma_entries_map_take<T>(entries: Seq<(Seq<char>, T)>, n: int)
    requires
        distinct_keys(entries),
        0 <= n < entries.len(),
    ensures
        entries_map(entries.take(n + 1)) == entries_map(entries.take(n)).insert(
            entries[n].0,
            entries[n].1,
        ),
        entries_map(entries.take(0)) == Map::<Seq<char>, T>::empty(),
{
    let head = entries.take(n);
    assert(entries.take(n + 1) == head.push(entries[n]));
    assert forall|j: int| 0 <= j < head.len() implies head[j].0 != entries[n].0 by {
        assert(head[j] == entries[j]);
    }
    lemma_key_index_is(head, entries[n].0, n);
    lemma_entries_map_push(head, entries[n].0, entries[n].1);
    assert(entries_map(entries.take(0)) =~= Map::<Seq<char>, T>::empty());
}

/// Distinct keys make as many entries as the map has keys.
pub proof fn lemma_entries_map_len<T>(entries: Seq<(Seq<char>, T)>)
    requires
        distinct_keys(entries),
    ensures
        entries_map(entries).dom().finite(),
        entries_map(entries).len() == entries.len(),
    decreases entries.len(),
{
    if entries.len() == 0 {
        assert(entries_map(entries) =~= Map::<Seq<char>, T>::empty());
    } else {
        let n = entries.len() - 1;
        let head = entries.take(n);
        assert(distinct_keys(head)) by {
            assert forall|i: int, j: int| 0 <= i < j < head.len() implies head[i].0 != head[j].0 by {
                assert(head[i] == entries[i]);
                assert(head[j] == entries[j]);
            }
        }
        lemma_entries_map_len(head);
        lemma_entries_map_take(entries, n);
        assert(entries.take(n + 1) == entries);
        lemma_key_index(head, entries[n].0);
        assert forall|j: int| 0 <= j < head.len() implies head[j].0 != entries[n].0 by {
            assert(head[j] == entries[j]);
        }
        lemma_key_index_is(head, entries[n].0, n);
        assert(!entries_map(head).dom().contains(entries[n].0));
        assert(entries_map(entries).dom() =~= entries_map(head).dom().insert(entries[n].0));
    }
}

/// A map keyed by strings. Its entries keep the order in which their keys
/// were first inserted. A map built through `new` and `insert` holds no key
/// twice.
#[derive(Clone, Debug)]
pub struct StringMap<V> {
    items: Vec<(String, V)>,
}

impl<V: View> StringMap<V> {
    /// The entries in insertion order.
    pub closed spec fn entries(&self) -> Seq<(Seq<char>, V::V)> {
        Seq::new(self.items@.len(), |i: int| (self.items@[i].0@, self.items@[i].1@))
    }

    /// Whether no key occurs twice.
    pub open spec fn wf(&self) -> bool {
        distinct_keys(self.entries())
    }

    /// An empty map.
    pub fn new() -> (map: Self)
        ensures
            map.entries() == Seq::<(Seq<char>, V::V)>::empty(),
            map@ == Map::<Seq<char>, V::V>::empty(),
            map.wf(),
    {
        let map = StringMap { items: Vec::new() };
        assert(map.entries() =~= Seq::empty());
        assert(map@ =~= Map::empty());
        map
    }

    /// Number of entries.
    pub fn len(&self) -> (n: usize)
        ensures
            n == self.entries().len(),
    {
        self.items.len()
    }

    /// Number of keys.
    pub fn count(&self) -> (n: usize)
        requires
            self.wf(),
        ensures
            n == self@.len(),
            self@.dom().finite(),
    {
        proof {
            lemma_entries_map_len(self.entries());
        }
        self.items.len()
    }

    /// The key of the entry at `i`.
    pub fn key_at(&self, i: usize) -> (key: &String)
        requires
            i < self.entries().len(),
        ensures
            key@ == self.entries()[i as int].0,
    {
        &self.items[i].0
    }

    /// The value of the entry at `i`.
    pub fn value_at(&self, i: usize) -> (value: &V)
        requires
            i < self.entries().len(),
        ensures
            value@ == self.entries()[i as int].1,
    {
        &self.items[i].1
    }

    fn position(&self, key: &str) -> (at: usize)
        ensures
            at == key_index(self.entries(), key@),
            at <= self.entries().len(),
    {
        proof {
            lemma_key_index(self.entries(), key@);
        }
        let mut i: usize = 0;
        while i < self.items.len()
            invariant
                i <= self.items@.len(),
                self.items@.len() == self.entries().len(),
                forall|j: int| 0 <= j < i ==> self.entries()[j].0 != key@,
                forall|j: int|
                    0 <= j < self.items@.len() ==> self.entries()[j].0 == (
                    #[trigger] self.items@[j]).0@,
                0 <= key_index(self.entries(), key@) <= self.entries().len(),
                key_index(self.entries(), key@) < self.entries().len() ==> self.entries()[key_index(
                    self.entries(),
                    key@,
                )].0 == key@,
                forall|j: int|
                    0 <= j < key_index(self.entries(), key@) ==> self.entries()[j].0 != key@,
            decreases self.items@.len() - i,
        {
            if str_eq(self.items[i].0.as_str(), key) {
                return i;
            }
            i += 1;
        }
        i
    }

    /// The value stored under `key`, if there is one.
    pub fn get(&self, key: &str) -> (found: Option<&V>)
        ensures
            match found {
                Some(value) => self@.contains_key(key@) && self@[key@] == value@,
                None => !self@.contains_key(key@),
            },
    {
        let at = self.position(key);
        if at < self.items.len() {
            Some(&self.items[at].1)
        } else {
            None
        }
    }

    /// Whether `key` has an entry.
    pub fn contains_key(&self, key: &str) -> (found: bool)
        ensures
            found == self@.contains_key(key@),
    {
        let at = self.position(key);
        at < self.items.len()
    }

    /// Store `value` under `key`. An entry that `key` already has keeps its
    /// place and gets the new value; a new key goes to the end.
    pub fn insert(&mut self, key: String, value: V)
        ensures
            final(self)@ == old(self)@.insert(key@, value@),
            final(self).entries() == if old(self)@.contains_key(key@) {
                old(self).entries().update(
                    key_index(old(self).entries(), key@),
                    (key@, value@),
                )
            } else {
                old(self).entries().push((key@, value@))
            },
            old(self).wf() ==> final(self).wf(),
    {
        let at = self.position(key.as_str());
        proof {
            lemma_key_index(self.entries(), key@);
        }
        let ghost before = self.entries();
        proof {
            if old(self).wf() {
                lemma_distinct_after_insert(before, key@, value@);
            }
        }
        if at < self.items.len() {
            self.items.set(at, (key, value));
            proof {
                assert(self.entries() =~= before.update(at as int, (key@, value@)));
                lemma_entries_map_update(before, at as int, value@);
            }
        } else {
            self.items.push((key, value));
            proof {
                assert(self.entries() =~= before.push((key@, value@)));
                lemma_entries_map_push(before, key@, value@);
            }
        }
    }
}

impl<V: View> View for StringMap<V> {
    type V = Map<Seq<char>, V::V>;

    open spec fn view(&self) -> Map<Seq<char>, V::V> {
        entries_map(self.entries())
    }
}

} // verus!
