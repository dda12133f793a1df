//! One cell of the grid in memory: the records whose dimension values map to the
//! cell's coordinate, filed under their dimension-0 value.

use vstd::prelude::*;

use crate::{Data, Error};

verus! {

/// What a chunk holds for one record.
pub enum Slot<T> {
    /// The record itself.
    Record(T),
    /// The record's payload as it came from storage, not decoded yet.
    Pending(bytes::Bytes),
}

/// One record of a chunk together with the dimension values under which it is filed.
pub struct Entry<T, const DIMS: usize> {
    /// The dimension values of the record. The first is its key within the chunk.
    pub dims: [u64; DIMS],
    /// The record, or its payload.
    pub slot: Slot<T>,
}

impl<T, const DIMS: usize> Entry<T, DIMS> {
    /// The key of the record within its chunk.
    pub open spec fn key(&self) -> u64 {
        self.dims@[0]
    }
}

/// The keys of `entries`, in their order.
pub open spec fn keys_of<T, const DIMS: usize>(entries: Seq<Entry<T, DIMS>>) -> Seq<u64> {
    Seq::new(entries.len(), |i: int| entries[i].key())
}

/// Decides a lookup once the record filed under `key` has said what its own key is:
/// a record whose key has moved on is not handed out.
pub fn check_key<'a, T>(key: u64, own: u64, value: &'a T) -> (r: Result<&'a T, Error>)
    ensures
        own == key ==> r == Ok::<&T, Error>(value),
        own != key ==> r == Err::<&T, Error>(Error::ValueMoved),
{
    if own == key {
        Ok(value)
    } else {
        Err(Error::ValueMoved)
    }
}

/// The records of one cell of the grid, and the format version of the storage they
/// were read from.
pub struct Chunk<T, const DIMS: usize> {
    version: u32,
    entries: Vec<Entry<T, DIMS>>,
}

impl<T, const DIMS: usize> Chunk<T, DIMS> {
    /// The entries of the chunk, in the order in which a scan meets them.
    pub closed spec fn entries(&self) -> Seq<Entry<T, DIMS>> {
        self.entries@
    }

    /// The format version of the storage that the chunk was read from.
    pub closed spec fn spec_version(&self) -> u32 {
        self.version
    }

    /// The keys of the entries, in their order.
    pub open spec fn keys(&self) -> Seq<u64> {
        keys_of(self.entries())
    }

    /// Records have a key, and no key is filed twice.
    pub open spec fn wf(&self) -> bool {
        DIMS > 0 && self.keys().no_duplicates()
    }

    /// Where the entry filed under `key` stands, if there is one.
    pub open spec fn find(&self, key: u64) -> Option<int> {
        self.keys().index_of_first(key)
    }

    /// A lookup result names an entry with that key, and no result means no such entry.
    pub proof fn lemma_find(&self, key: u64)
        ensures
            match self.find(key) {
                Some(i) => 0 <= i < self.entries().len() && self.entries()[i].key() == key,
                None => forall|i: int| 0 <= i < self.entries().len() ==> self.entries()[i].key() != key,
            },
    {
        let keys = self.keys();
        keys.index_of_first_ensures(key);
        if self.find(key) is None {
            assert forall|i: int| 0 <= i < self.entries().len() implies self.entries()[i].key()
                != key by {
                assert(keys[i] == self.entries()[i].key());
            }
        } else {
            let i = self.find(key).unwrap();
            assert(keys[i] == self.entries()[i].key());
        }
    }

    /// An entry with the key, after entries without it, is what a lookup finds.
    pub proof fn lemma_find_at(&self, key: u64, i: int)
        requires
            0 <= i < self.entries().len(),
            self.entries()[i].key() == key,
            forall|j: int| 0 <= j < i ==> self.entries()[j].key() != key,
        ensures
            self.find(key) == Some(i),
    {
        let keys = self.keys();
        keys.index_of_first_ensures(key);
        assert(keys[i] == key);
        let found = self.find(key).unwrap();
        if found < i {
            assert(keys[found] == self.entries()[found].key());
        } else if found > i {
            assert(keys[i] == key);
        }
    }

    /// An empty chunk of the given storage version.
    pub fn new(version: u32) -> (chunk: Self)
        requires
            DIMS > 0,
        ensures
            chunk.wf(),
            chunk.entries() == Seq::<Entry<T, DIMS>>::empty(),
            chunk.spec_version() == version,
    {
        Chunk { version, entries: Vec::new() }
    }

    /// The format version of the storage that the chunk was read from.
    pub fn version(&self) -> (version: u32)
        ensures
            version == self.spec_version(),
    {
        self.version
    }

    /// Number of entries.
    pub fn len(&self) -> (len: usize)
        ensures
            len == self.entries().len(),
    {
        self.entries.len()
    }

    /// The entry at `index` in scan order.
    pub fn entry(&self, index: usize) -> (entry: &Entry<T, DIMS>)
        requires
            index < self.entries().len(),
        ensures
            *entry == self.entries()[index as int],
    {
        &self.entries[index]
    }

    /// Where the entry filed under `key` stands, if there is one.
    pub fn position(&self, key: u64) -> (r: Option<usize>)
        requires
            DIMS > 0,
        ensures
            match r {
                Some(i) => {
                    &&& self.find(key) == Some(i as int)
                    &&& i < self.entries().len()
                    &&& self.entries()[i as int].key() == key
                },
                None => self.find(key) is None,
            },
    {
        let mut i: usize = 0;
        while i < self.entries.len()
            invariant
                DIMS > 0,
                i <= self.entries@.len(),
                forall|j: int| 0 <= j < i ==> self.entries()[j].key() != key,
            decreases self.entries@.len() - i,
        {
            if self.entries[i].dims[0] == key {
                proof {
                    self.lemma_find_at(key, i as int);
                }
                return Some(i);
            }
            i += 1;
        }
        proof {
            self.lemma_find(key);
        }
        None
    }

    /// Files `entry` under its key. An entry that was filed under the same key gives
    /// way to it and keeps its place in scan order; otherwise the entry comes last.
    /// Returns whether an entry gave way.
    pub fn put(&mut self, entry: Entry<T, DIMS>) -> (replaced: bool)
        requires
            old(self).wf(),
        ensures
            final(self).wf(),
            final(self).spec_version() == old(self).spec_version(),
            replaced == old(self).find(entry.key()) is Some,
            match old(self).find(entry.key()) {
                Some(i) => final(self).entries() == old(self).entries().update(i, entry),
                None => final(self).entries() == old(self).entries().push(entry),
            },
    {
        let key = entry.dims[0];
        let found = self.position(key);
        let ghost before = self.entries@;
        match found {
            Some(i) => {
                self.entries[i] = entry;
                assert(self.entries@ == before.update(i as int, entry));
                assert(keys_of(self.entries@) =~= keys_of(before));
                true
            },
            None => {
                proof {
                    self.lemma_find(key);
                }
                self.entries.push(entry);
                assert forall|a: int, b: int|
                    0 <= a < self.entries@.len() && 0 <= b < self.entries@.len() && a
                        != b implies keys_of(self.entries@)[a] != keys_of(self.entries@)[b] by {
                    if a < before.len() && b < before.len() {
                        assert(keys_of(before)[a] != keys_of(before)[b]);
                    } else if a < before.len() {
                        assert(before[a].key() != key);
                    } else {
                        assert(before[b].key() != key);
                    }
                }
                false
            },
        }
    }

    /// Takes the entry filed under `key` out of the chunk; the others keep their
    /// order. Returns whether there was one.
    pub fn remove(&mut self, key: u64) -> (removed: bool)
        requires
            old(self).wf(),
        ensures
            final(self).wf(),
            final(self).spec_version() == old(self).spec_version(),
            removed == old(self).find(key) is Some,
            match old(self).find(key) {
                Some(i) => final(self).entries() == old(self).entries().remove(i),
                None => final(self).entries() == old(self).entries(),
            },
            final(self).find(key) is None,
    {
        let found = self.position(key);
        let ghost before = self.entries@;
        proof {
            self.lemma_find(key);
        }
        match found {
            Some(i) => {
                let _ = self.entries.remove(i);
                assert forall|a: int, b: int|
                    0 <= a < self.entries@.len() && 0 <= b < self.entries@.len() && a
                        != b implies keys_of(self.entries@)[a] != keys_of(self.entries@)[b] by {
                    let a0 = if a < i { a } else { a + 1 };
                    let b0 = if b < i { b } else { b + 1 };
                    assert(keys_of(before)[a0] != keys_of(before)[b0]);
                }
                assert forall|a: int| 0 <= a < self.entries@.len() implies keys_of(
                    self.entries@,
                )[a] != key by {
                    let a0 = if a < i { a } else { a + 1 };
                    assert(keys_of(before)[a0] != keys_of(before)[i as int]);
                }
                proof {
                    keys_of(self.entries@).index_of_first_ensures(key);
                    if keys_of(self.entries@).index_of_first(key) is Some {
                        let f = keys_of(self.entries@).index_of_first(key).unwrap();
                        assert(keys_of(self.entries@)[f] != key);
                    }
                }
                true
            },
            None => false,
        }
    }
}

impl<T: Data, const DIMS: usize> Chunk<T, DIMS> {
    /// The record filed under `key`. There is none where no entry has the key, and
    /// none yet where the entry still holds a payload. A record that no longer
    /// says of itself that `key` is its key has moved, and is not handed out.
    pub fn get(&self, key: u64) -> (r: Result<&T, Error>)
        requires
            self.wf(),
            T::DIMS == DIMS,
        ensures
            match self.find(key) {
                Some(i) => match self.entries()[i].slot {
                    Slot::Record(value) => r == Ok::<&T, Error>(&value) || r == Err::<&T, Error>(
                        Error::ValueMoved,
                    ),
                    Slot::Pending(_) => r == Err::<&T, Error>(Error::ValueNotFound),
                },
                None => r == Err::<&T, Error>(Error::ValueNotFound),
            },
    {
        match self.position(key) {
            Some(i) => match &self.entries[i].slot {
                Slot::Record(value) => check_key(key, value.dim(0), value),
                Slot::Pending(_) => Err(Error::ValueNotFound),
            },
            None => Err(Error::ValueNotFound),
        }
    }
}

} // verus!
