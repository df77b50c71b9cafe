//! Operations on dictionaries: lookup by key and storing an entry.

use vstd::prelude::*;
use crate::object::{
    bytes_equal, entries_model, first_at, first_index, has_key, lemma_first_index,
    lemma_has_key_first, lookup, unique_keys, with_entry, Dictionary, EntryModel, Object,
    ObjectModel,
};

verus! {

/// What is stored under a key is what a lookup of that key gives.
pub proof fn lemma_lookup_stored(entries: Seq<EntryModel>, key: Seq<u8>, value: ObjectModel)
    ensures
        lookup(with_entry(entries, key, value), key) == Some(value),
        with_entry(entries, key, value).len() >= entries.len(),
{
    let after = with_entry(entries, key, value);
    if has_key(entries, key) {
        lemma_has_key_first(entries, key);
        let at = first_index(entries, key);
        assert(first_at(after, key, at)) by {
            assert forall|j: int| 0 <= j < at implies (#[trigger] after[j]).key != key by {
                assert(entries[j].key != key);
            }
        }
        lemma_first_index(after, key, at);
    } else {
        let at = entries.len() as int;
        assert(first_at(after, key, at)) by {
            assert forall|j: int| 0 <= j < at implies (#[trigger] after[j]).key != key by {
                assert(entries[j].key == after[j].key);
            }
        }
        lemma_first_index(after, key, at);
    }
}

/// Storing under one key leaves what stands under every other key.
pub proof fn lemma_lookup_other(
    entries: Seq<EntryModel>,
    key: Seq<u8>,
    value: ObjectModel,
    other: Seq<u8>,
)
    requires
        other != key,
    ensures
        lookup(with_entry(entries, key, value), other) == lookup(entries, other),
{
    let after = with_entry(entries, key, value);
    if has_key(entries, key) {
        lemma_has_key_first(entries, key);
    }
    assert(after.len() >= entries.len());
    assert forall|j: int| 0 <= j < entries.len() implies (#[trigger] after[j]).key
        == entries[j].key && (entries[j].key == other ==> after[j].value == entries[j].value) by {
        if has_key(entries, key) {
            let c = first_index(entries, key);
            if j == c {
                assert(after[j].key == key);
            } else {
                assert(after[j] == entries[j]);
            }
        } else {
            assert(after[j] == entries[j]);
        }
    }
    assert forall|j: int| entries.len() <= j < after.len() implies (#[trigger] after[j]).key
        != other by {
        assert(after[j].key == key);
    }
    if has_key(entries, other) {
        lemma_has_key_first(entries, other);
        let at = first_index(entries, other);
        assert(after[at].key == other);
        assert forall|j: int| 0 <= j < at implies (#[trigger] after[j]).key != other by {
            assert(entries[j].key != other);
        }
        assert(first_at(after, other, at));
        lemma_first_index(after, other, at);
    } else {
        if has_key(after, other) {
            let w = choose|i: int| 0 <= i < after.len() && (#[trigger] after[i]).key == other;
            if w < entries.len() {
                assert(entries[w].key == other);
            }
        }
    }
}

/// An entry that stands first under its key is what a lookup gives.
pub proof fn lemma_lookup_at(entries: Seq<EntryModel>, key: Seq<u8>, at: int)
    requires
        first_at(entries, key, at),
    ensures
        lookup(entries, key) == Some(entries[at].value),
{
    lemma_first_index(entries, key, at);
}

impl Dictionary {
    /// An empty dictionary.
    pub fn new() -> (dict: Dictionary)
        ensures
            dict@ == Seq::<EntryModel>::empty(),
            unique_keys(dict@),
    {
        let dict = Dictionary { entries: Vec::new() };
        assert(dict@ =~= Seq::<EntryModel>::empty());
        dict
    }

    /// The number of entries.
    pub fn len(&self) -> (n: usize)
        ensures
            n == self@.len(),
    {
        self.entries.len()
    }

    /// Whether there is no entry.
    pub fn is_empty(&self) -> (empty: bool)
        ensures
            empty == (self@.len() == 0),
    {
        self.entries.len() == 0
    }

    /// The entries in order, each a key and its value.
    pub fn entries(&self) -> (entries: &Vec<(Vec<u8>, Object)>)
        ensures
            entries_model(entries@) == self@,
    {
        &self.entries
    }

    /// The first position at which `key` stands.
    fn find(&self, key: &[u8]) -> (found: Option<usize>)
        ensures
            match found {
                Some(i) => first_at(self@, key@, i as int),
                None => !has_key(self@, key@),
            },
    {
        let n: usize = self.entries.len();
        let mut i: usize = 0;
        while i < n
            invariant
                self.entries.len() == n,
                i <= n,
                forall|j: int| 0 <= j < i ==> (#[trigger] self@[j]).key != key@,
            decreases n - i,
        {
            if bytes_equal(self.entries[i].0.as_slice(), key) {
                return Some(i);
            }
            i = i + 1;
        }
        None
    }

    /// Whether an entry carries `key`.
    pub fn has(&self, key: &[u8]) -> (present: bool)
        ensures
            present == has_key(self@, key@),
    {
        match self.find(key) {
            Some(i) => {
                proof {
                    lemma_first_index(self@, key@, i as int);
                }
                true
            },
            None => false,
        }
    }

    /// The value stored under `key`, if any.
    pub fn get(&self, key: &[u8]) -> (value: Option<&Object>)
        ensures
            match value {
                Some(object) => lookup(self@, key@) == Some(object@),
                None => lookup(self@, key@) is None,
            },
    {
        match self.find(key) {
            Some(i) => {
                proof {
                    lemma_first_index(self@, key@, i as int);
                }
                Some(&self.entries[i].1)
            },
            None => None,
        }
    }

    /// Stores `value` under `key`. An entry that carries the key keeps its
    /// place and takes the new value; otherwise the entry goes to the end.
    pub fn set(&mut self, key: Vec<u8>, value: Object)
        ensures
            final(self)@ == with_entry(old(self)@, key@, value@),
            unique_keys(old(self)@) ==> unique_keys(final(self)@),
    {
        let ghost before = self@;
        match self.find(key.as_slice()) {
            Some(i) => {
                proof {
                    lemma_first_index(before, key@, i as int);
                }
                self.entries[i].1 = value;
                assert(self@ =~= before.update(i as int, EntryModel { key: key@, value: value@ }));
            },
            None => {
                self.entries.push((key, value));
                assert(self@ =~= before.push(EntryModel { key: key@, value: value@ }));
            },
        }
    }
}

} // verus!
