//! The engine contract that every backend meets, and a second backend that
//! keeps its pairs in memory only.
use vstd::prelude::*;
use crate::error::KvsError;
use crate::store::{KvStore, pair_fits};

verus! {

/// A key-value storage engine.
pub trait KvsEngine {
    /// What the engine holds: each key and its value.
    spec fn contents(&self) -> Map<Seq<char>, Seq<char>>;

    /// Whether the engine's own invariant holds.
    spec fn ready(&self) -> bool;

    /// Sets the value of a key; an earlier value is overwritten.
    fn set(&mut self, key: String, value: String) -> (r: Result<(), KvsError>)
        requires
            old(self).ready(),
            pair_fits(key@, value@),
        ensures
            final(self).ready(),
            r is Ok,
            final(self).contents() == old(self).contents().insert(key@, value@),
    ;

    /// The value of a key, or `None` where the key is absent.
    fn get(&self, key: String) -> (r: Result<Option<String>, KvsError>)
        requires
            self.ready(),
        ensures
            r is Ok,
            r matches Ok(o) ==> (o is Some <==> self.contents().contains_key(key@)),
            r matches Ok(Some(v)) ==> v@ == self.contents()[key@],
    ;

    /// Removes a key; fails with `KeyNotFound`, changing nothing, where it is
    /// absent.
    fn remove(&mut self, key: String) -> (r: Result<(), KvsError>)
        requires
            old(self).ready(),
        ensures
            final(self).ready(),
            old(self).contents().contains_key(key@) ==> r is Ok && final(self).contents() == old(
                self,
            ).contents().remove(key@),
            !old(self).contents().contains_key(key@) ==> (r matches Err(KvsError::KeyNotFound))
                && final(self).contents() == old(self).contents(),
    ;
}

impl KvsEngine for KvStore {
    open spec fn contents(&self) -> Map<Seq<char>, Seq<char>> {
        self.view()
    }

    open spec fn ready(&self) -> bool {
        self.wf()
    }

    fn set(&mut self, key: String, value: String) -> (r: Result<(), KvsError>) {
        KvStore::set(self, key, value)
    }

    fn get(&self, key: String) -> (r: Result<Option<String>, KvsError>) {
        KvStore::get(self, key)
    }

    fn remove(&mut self, key: String) -> (r: Result<(), KvsError>) {
        KvStore::remove(self, key)
    }
}

struct MemEntry {
    key: String,
    value: String,
}

/// A backend that keeps its pairs in memory only, as a list with each key once.
pub struct MemStore {
    entries: Vec<MemEntry>,
    map: Ghost<Map<Seq<char>, Seq<char>>>,
}

impl MemStore {
    /// What the store holds.
    pub closed spec fn view(&self) -> Map<Seq<char>, Seq<char>> {
        self.map@
    }

    /// Each entry is in the map, each key of the map has an entry, and no key
    /// has two.
    pub closed spec fn wf(&self) -> bool {
        &&& forall|i: int|
            0 <= i < self.entries@.len() ==> #[trigger] self.map@.contains_key(
                self.entries@[i].key@,
            ) && self.map@[self.entries@[i].key@] == self.entries@[i].value@
        &&& forall|k: Seq<char>|
            #[trigger] self.map@.contains_key(k) ==> exists|i: int|
                0 <= i < self.entries@.len() && self.entries@[i].key@ == k
        &&& forall|i: int, j: int|
            0 <= i < self.entries@.len() && 0 <= j < self.entries@.len() && i != j
                ==> self.entries@[i].key@ != self.entries@[j].key@
    }

    /// An empty store.
    pub fn new() -> (r: MemStore)
        ensures
            r.wf(),
            r.view() == Map::<Seq<char>, Seq<char>>::empty(),
    {
        MemStore { entries: Vec::new(), map: Ghost(Map::empty()) }
    }

    fn find(&self, key: &String) -> (r: Option<usize>)
        requires
            self.wf(),
        ensures
            r matches Some(i) ==> i < self.entries@.len() && self.entries@[i as int].key@ == key@,
            r is None ==> !self.view().contains_key(key@),
    {
        let mut i: usize = 0;
        while i < self.entries.len()
            invariant
                i <= self.entries@.len(),
                forall|j: int| 0 <= j < i ==> self.entries@[j].key@ != key@,
            decreases self.entries@.len() - i,
        {
            if self.entries[i].key == *key {
                return Some(i);
            }
            i = i + 1;
        }
        None
    }
}

impl KvsEngine for MemStore {
    open spec fn contents(&self) -> Map<Seq<char>, Seq<char>> {
        self.view()
    }

    open spec fn ready(&self) -> bool {
        self.wf()
    }

    fn set(&mut self, key: String, value: String) -> (r: Result<(), KvsError>) {
        let ghost k = key@;
        let ghost v = value@;
        match self.find(&key) {
            Some(i) => {
                let ghost old_entries = self.entries@;
                assert(self.map@.contains_key(old_entries[i as int].key@));
                self.entries.set(i, MemEntry { key, value });
                self.map = Ghost(self.map@.insert(k, v));
                assert forall|j: int| 0 <= j < self.entries@.len() implies #[trigger]
                    self.map@.contains_key(self.entries@[j].key@) && self.map@[self.entries@[
                    j].key@] == self.entries@[j].value@ by {
                    if j != i {
                        assert(old(self).map@.contains_key(old_entries[j].key@));
                    }
                }
                assert forall|kk: Seq<char>| #[trigger] self.map@.contains_key(kk) implies exists|
                    j: int,
                | 0 <= j < self.entries@.len() && self.entries@[j].key@ == kk by {
                    if kk != k {
                        let j = choose|j: int|
                            0 <= j < old(self).entries@.len() && old(self).entries@[j].key@ == kk;
                        assert(self.entries@[j].key@ == kk);
                    } else {
                        assert(self.entries@[i as int].key@ == kk);
                    }
                }
            },
            None => {
                let ghost old_entries = self.entries@;
                self.entries.push(MemEntry { key, value });
                self.map = Ghost(self.map@.insert(k, v));
                assert forall|j: int| 0 <= j < self.entries@.len() implies #[trigger]
                    self.map@.contains_key(self.entries@[j].key@) && self.map@[self.entries@[
                    j].key@] == self.entries@[j].value@ by {
                    if j < old_entries.len() {
                        assert(self.entries@[j] == old_entries[j]);
                        assert(old(self).map@.contains_key(old_entries[j].key@));
                    }
                }
                assert forall|kk: Seq<char>| #[trigger] self.map@.contains_key(kk) implies exists|
                    j: int,
                | 0 <= j < self.entries@.len() && self.entries@[j].key@ == kk by {
                    if kk != k {
                        let j = choose|j: int|
                            0 <= j < old(self).entries@.len() && old(self).entries@[j].key@ == kk;
                        assert(self.entries@[j].key@ == kk);
                    } else {
                        assert(self.entries@[self.entries@.len() - 1].key@ == kk);
                    }
                }
            },
        }
        Ok(())
    }

    fn get(&self, key: String) -> (r: Result<Option<String>, KvsError>) {
        match self.find(&key) {
            Some(i) => {
                assert(self.map@.contains_key(self.entries@[i as int].key@));
                Ok(Some(self.entries[i].value.clone()))
            },
            None => Ok(None),
        }
    }

    fn remove(&mut self, key: String) -> (r: Result<(), KvsError>) {
        match self.find(&key) {
            Some(i) => {
                let ghost old_entries = self.entries@;
                assert(self.map@.contains_key(old_entries[i as int].key@));
                self.entries.swap_remove(i);
                let ghost k = key@;
                self.map = Ghost(self.map@.remove(k));
                let ghost last = old_entries.len() - 1;
                assert forall|j: int| 0 <= j < self.entries@.len() implies self.entries@[j]
                    == old_entries[if j == i { last } else { j }] && (if j == i { last } else {
                    j
                }) != i by {}
                assert forall|j: int| 0 <= j < self.entries@.len() implies #[trigger]
                    self.map@.contains_key(self.entries@[j].key@) && self.map@[self.entries@[
                    j].key@] == self.entries@[j].value@ by {
                    let jj = if j == i { last } else { j };
                    assert(old(self).map@.contains_key(old_entries[jj].key@));
                }
                assert forall|kk: Seq<char>| #[trigger] self.map@.contains_key(kk) implies exists|
                    j: int,
                | 0 <= j < self.entries@.len() && self.entries@[j].key@ == kk by {
                    let j = choose|j: int| 0 <= j < old_entries.len() && old_entries[j].key@ == kk;
                    if j == old_entries.len() - 1 {
                        assert(self.entries@[i as int].key@ == kk);
                    } else {
                        assert(j != i);
                        assert(self.entries@[j].key@ == kk);
                    }
                }
                Ok(())
            },
            None => Err(KvsError::KeyNotFound),
        }
    }
}

} // verus!
