//! The cache store: one value per key, last write wins, entries kept in the
//! order in which their keys first arrived.

use vstd::prelude::*;
use crate::snapshot::Snapshot;

verus! {

/// The mathematical form of a store's contents: `(key, value)` pairs in iteration order.
pub type Entries = Seq<(Seq<char>, Seq<char>)>;

/// The position of the first entry under `key`, or the number of entries when there is none.
pub open spec fn position(entries: Entries, key: Seq<char>) -> int
    decreases entries.len(),
{
    if entries.len() == 0 {
        0
    } else if entries.first().0 == key {
        0
    } else {
        1 + position(entries.drop_first(), key)
    }
}

/// The value stored under `key`, if any.
pub open spec fn lookup(entries: Entries, key: Seq<char>) -> Option<Seq<char>> {
    let i = position(entries, key);
    if i < entries.len() {
        Some(entries[i].1)
    } else {
        None
    }
}

/// The contents after writing `value` under `key`: an entry already under `key`
/// is overwritten in place, a new key goes to the end.
pub open spec fn upsert(entries: Entries, key: Seq<char>, value: Seq<char>) -> Entries {
    let i = position(entries, key);
    if i < entries.len() {
        entries.update(i, (key, value))
    } else {
        entries.push((key, value))
    }
}

/// No key occurs twice.
pub open spec fn distinct_keys(entries: Entries) -> bool {
    forall|i: int, j: int| 0 <= i < j < entries.len() ==> entries[i].0 != entries[j].0
}

/// The contents as a mapping from key to value.
pub open spec fn as_map(entries: Entries) -> Map<Seq<char>, Seq<char>> {
    Map::new(
        |k: Seq<char>| position(entries, k) < entries.len(),
        |k: Seq<char>| entries[position(entries, k)].1,
    )
}

/// `position` is the first index whose key matches.
pub proof fn lemma_position(entries: Entries, key: Seq<char>)
    ensures
        0 <= position(entries, key) <= entries.len(),
        forall|k: int| 0 <= k < position(entries, key) ==> entries[k].0 != key,
        position(entries, key) < entries.len() ==> entries[position(entries, key)].0 == key,
    decreases entries.len(),
{
    if entries.len() > 0 && entries.first().0 != key {
        let rest = entries.drop_first();
        lemma_position(rest, key);
        assert forall|k: int| 0 <= k < position(entries, key) implies entries[k].0 != key by {
            if k > 0 {
                assert(entries[k] == rest[k - 1]);
            }
        }
        if position(entries, key) < entries.len() {
            assert(entries[position(entries, key)] == rest[position(rest, key)]);
        }
    }
}

/// An index that no match precedes, and that matches or ends the entries, is the position.
pub proof fn lemma_position_at(entries: Entries, key: Seq<char>, i: int)
    requires
        0 <= i <= entries.len(),
        forall|k: int| 0 <= k < i ==> entries[k].0 != key,
        i < entries.len() ==> entries[i].0 == key,
    ensures
        position(entries, key) == i,
{
    lemma_position(entries, key);
}

/// Reading after a write: the written key gives the written value, every other key is untouched.
pub proof fn lemma_lookup_upsert(entries: Entries, key: Seq<char>, value: Seq<char>, other: Seq<char>)
    ensures
        lookup(upsert(entries, key, value), key) == Some(value),
        other != key ==> lookup(upsert(entries, key, value), other) == lookup(entries, other),
{
    let after = upsert(entries, key, value);
    lemma_position(entries, key);
    lemma_position_at(after, key, position(entries, key));
    if other != key {
        lemma_position(entries, other);
        let p = position(entries, other);
        let q = if p < entries.len() {
            p
        } else {
            after.len() as int
        };
        lemma_position_at(after, other, q);
    }
}

/// A write keeps the keys distinct, and adds an entry only for a new key.
pub proof fn lemma_upsert_shape(entries: Entries, key: Seq<char>, value: Seq<char>)
    ensures
        distinct_keys(entries) ==> distinct_keys(upsert(entries, key, value)),
        upsert(entries, key, value).len() == if lookup(entries, key).is_some() {
            entries.len()
        } else {
            entries.len() + 1
        },
{
    lemma_position(entries, key);
}

/// Writing the same pair again changes nothing.
pub proof fn lemma_upsert_idempotent(entries: Entries, key: Seq<char>, value: Seq<char>)
    ensures
        upsert(upsert(entries, key, value), key, value) == upsert(entries, key, value),
{
    let once = upsert(entries, key, value);
    lemma_position(entries, key);
    lemma_position_at(once, key, position(entries, key));
    assert(upsert(once, key, value) =~= once);
}

/// As a mapping, a write is an insertion, and reading is the mapping's lookup.
pub proof fn lemma_as_map(entries: Entries, key: Seq<char>, value: Seq<char>)
    ensures
        as_map(upsert(entries, key, value)) == as_map(entries).insert(key, value),
        lookup(entries, key) == if as_map(entries).contains_key(key) {
            Some(as_map(entries)[key])
        } else {
            None
        },
{
    let after = upsert(entries, key, value);
    let inserted = as_map(entries).insert(key, value);
    assert forall|k: Seq<char>| #[trigger]
        as_map(after).dom().contains(k) == inserted.dom().contains(k) by {
        lemma_lookup_upsert(entries, key, value, k);
    }
    assert forall|k: Seq<char>| #[trigger] as_map(after).dom().contains(k) implies as_map(after)[k]
        == inserted[k] by {
        lemma_lookup_upsert(entries, key, value, k);
    }
    assert(as_map(after) =~= inserted);
}

/// With distinct keys the mapping has as many keys as there are entries.
pub proof fn lemma_as_map_len(entries: Entries)
    requires
        distinct_keys(entries),
    ensures
        as_map(entries).dom().finite(),
        as_map(entries).dom().len() == entries.len(),
    decreases entries.len(),
{
    if entries.len() == 0 {
        assert(as_map(entries).dom() =~= Set::<Seq<char>>::empty());
    } else {
        let rest = entries.drop_last();
        let last = entries.last();
        lemma_as_map_len(rest);
        lemma_position(rest, last.0);
        assert(rest.push(last) =~= entries);
        assert(upsert(rest, last.0, last.1) == entries);
        lemma_as_map(rest, last.0, last.1);
        assert(as_map(entries).dom() =~= as_map(rest).dom().insert(last.0));
        assert(!as_map(rest).dom().contains(last.0));
    }
}

/// One entry of the cache: a key and the value last written under it.
#[derive(Debug, Clone, PartialEq, Eq)]
pub struct CacheEntry {
    pub key: String,
    pub value: String,
}

impl View for CacheEntry {
    type V = (Seq<char>, Seq<char>);

    open spec fn view(&self) -> (Seq<char>, Seq<char>) {
        (self.key@, self.value@)
    }
}

impl CacheEntry {
    /// The entry of `value` under `key`.
    pub fn new(key: String, value: String) -> (e: Self)
        ensures
            e@ == (key@, value@),
    {
        CacheEntry { key, value }
    }
}

/// The in-memory cache of one node.
#[derive(Debug)]
pub struct CacheStore {
    entries: Vec<CacheEntry>,
}

impl View for CacheStore {
    type V = Entries;

    closed spec fn view(&self) -> Entries {
        self.entries@.map_values(|e: CacheEntry| e@)
    }
}

impl CacheStore {
    /// The store's invariant: at most one value per key.
    pub open spec fn wf(&self) -> bool {
        distinct_keys(self@)
    }

    /// An empty store.
    pub fn new() -> (s: Self)
        ensures
            s@ == Seq::<(Seq<char>, Seq<char>)>::empty(),
            s.wf(),
    {
        let s = CacheStore { entries: Vec::new() };
        assert(s@ =~= Seq::<(Seq<char>, Seq<char>)>::empty());
        s
    }

    /// The number of entries.
    pub fn len(&self) -> (n: usize)
        ensures
            n == self@.len(),
    {
        self.entries.len()
    }

    /// The entry at place `i` of the iteration order.
    pub fn entry(&self, i: usize) -> (e: &CacheEntry)
        requires
            i < self@.len(),
        ensures
            e@ == self@[i as int],
    {
        &self.entries[i]
    }

    /// Where the entry under `key` stands, or the number of entries when there is none.
    fn find(&self, key: &String) -> (i: usize)
        ensures
            i == position(self@, key@),
    {
        let mut i: usize = 0;
        while i < self.entries.len()
            invariant
                0 <= i <= self.entries.len(),
                forall|k: int| 0 <= k < i ==> self@[k].0 != key@,
            decreases self.entries.len() - i,
        {
            if self.entries[i].key.eq(key) {
                proof {
                    lemma_position_at(self@, key@, i as int);
                }
                return i;
            }
            i += 1;
        }
        proof {
            lemma_position_at(self@, key@, i as int);
        }
        i
    }

    /// The value under `key`, or `None` when the key is absent.
    pub fn get(&self, key: &str) -> (r: Option<&String>)
        ensures
            match r {
                Some(v) => lookup(self@, key@) == Some(v@),
                None => lookup(self@, key@).is_none(),
            },
    {
        let owned = key.to_owned();
        let i = self.find(&owned);
        if i < self.entries.len() {
            Some(&self.entries[i].value)
        } else {
            None
        }
    }

    /// Writes `value` under `key`, over whatever was there.
    pub fn set(&mut self, key: String, value: String)
        ensures
            final(self)@ == upsert(old(self)@, key@, value@),
            old(self).wf() ==> final(self).wf(),
    {
        let i = self.find(&key);
        proof {
            lemma_upsert_shape(self@, key@, value@);
        }
        if i < self.entries.len() {
            self.entries.set(i, CacheEntry { key, value });
        } else {
            self.entries.push(CacheEntry { key, value });
        }
        assert(self@ =~= upsert(old(self)@, key@, value@));
    }

    /// A point-in-time copy of the contents as two parallel columns.
    pub fn snapshot(&self) -> (s: Snapshot)
        ensures
            s@ == self@,
    {
        let mut keys: Vec<String> = Vec::new();
        let mut values: Vec<String> = Vec::new();
        let mut i: usize = 0;
        while i < self.entries.len()
            invariant
                0 <= i <= self.entries.len(),
                keys.len() == i,
                values.len() == i,
                forall|k: int| 0 <= k < i ==> keys[k]@ == self@[k].0 && values[k]@ == self@[k].1,
            decreases self.entries.len() - i,
        {
            keys.push(self.entries[i].key.clone());
            values.push(self.entries[i].value.clone());
            i += 1;
        }
        assert(crate::snapshot::rows(keys.deep_view(), values.deep_view()) =~= self@);
        Snapshot::of_columns(keys, values)
    }
}

} // verus!
