//! The in-memory index: for each live key, where its latest record lies.
use vstd::prelude::*;

verus! {

/// Where a record lies: the position of its segment in the store, the byte
/// offset in that segment, and the record's length.
#[derive(Clone, Copy, Debug)]
pub struct Loc {
    pub seg: usize,
    pub offset: usize,
    pub len: usize,
}

/// One key and the place of its latest record.
pub struct IndexEntry {
    pub key: String,
    pub loc: Loc,
}

/// A map from keys to record places, kept as a list with each key once.
pub struct Index {
    entries: Vec<IndexEntry>,
    map: Ghost<Map<Seq<char>, Loc>>,
}

impl View for Index {
    type V = Map<Seq<char>, Loc>;

    closed spec fn view(&self) -> Map<Seq<char>, Loc> {
        self.map@
    }
}

impl Index {
    /// Each entry is in the map, each key of the map has an entry, and no key
    /// has two.
    pub closed spec fn wf(&self) -> bool {
        &&& forall|i: int|
            0 <= i < self.entries@.len() ==> #[trigger] self.map@.contains_key(
                self.entries@[i].key@,
            ) && self.map@[self.entries@[i].key@] == self.entries@[i].loc
        &&& forall|k: Seq<char>|
            #[trigger] self.map@.contains_key(k) ==> exists|i: int|
                0 <= i < self.entries@.len() && self.entries@[i].key@ == k
        &&& forall|i: int, j: int|
            0 <= i < self.entries@.len() && 0 <= j < self.entries@.len() && i != j
                ==> self.entries@[i].key@ != self.entries@[j].key@
    }

    /// The keys in the order that `entry` hands them out.
    pub closed spec fn key_at(&self, i: int) -> Seq<char> {
        self.entries@[i].key@
    }

    /// The sum of the record lengths of the first `i` keys that `entry`
    /// hands out.
    pub open spec fn len_prefix(&self, i: int) -> nat
        decreases i,
    {
        if i <= 0 {
            0
        } else {
            self.len_prefix(i - 1) + self@[self.key_at(i - 1)].len as nat
        }
    }

    /// Two indexes that agree on their first `i` keys and on those keys'
    /// places agree on the sum of their lengths.
    pub proof fn lemma_len_prefix_same(a: &Index, b: &Index, i: int)
        requires
            forall|j: int| 0 <= j < i ==> #[trigger] a.key_at(j) == b.key_at(j) && a@[a.key_at(j)] == b@[b.key_at(j)],
        ensures
            a.len_prefix(i) == b.len_prefix(i),
        decreases i,
    {
        if i > 0 {
            assert(a.key_at(i - 1) == b.key_at(i - 1));
            Self::lemma_len_prefix_same(a, b, i - 1);
        }
    }

    /// Dropping the key at position `p`, and moving the later keys down by
    /// one, takes its length out of the sum.
    pub proof fn lemma_len_prefix_remove(a: &Index, b: &Index, p: int, i: int)
        requires
            0 <= p <= i,
            forall|j: int| 0 <= j < p ==> #[trigger] b.key_at(j) == a.key_at(j),
            forall|j: int| p <= j < i ==> #[trigger] b.key_at(j) == a.key_at(j + 1),
            forall|j: int|
                0 <= j < i + 1 && j != p ==> b@[#[trigger] a.key_at(j)] == a@[a.key_at(j)],
        ensures
            a.len_prefix(i + 1) == b.len_prefix(i) + a@[a.key_at(p)].len as nat,
        decreases i,
    {
        if i == p {
            assert forall|j: int| 0 <= j < p implies #[trigger] a.key_at(j) == b.key_at(j) && a@[a.key_at(j)] == b@[b.key_at(j)] by {
                assert(b.key_at(j) == a.key_at(j));
            }
            Self::lemma_len_prefix_same(a, b, p);
        } else {
            Self::lemma_len_prefix_remove(a, b, p, i - 1);
            assert(b.key_at(i - 1) == a.key_at(i));
        }
    }

    /// Changing the place of the key at position `p` changes the sum by the
    /// difference of the lengths.
    pub proof fn lemma_len_prefix_update(a: &Index, b: &Index, p: int, i: int)
        requires
            0 <= p < i,
            forall|j: int| 0 <= j < i ==> #[trigger] b.key_at(j) == a.key_at(j),
            forall|j: int| 0 <= j < i && j != p ==> b@[#[trigger] a.key_at(j)] == a@[a.key_at(j)],
        ensures
            a.len_prefix(i) + b@[a.key_at(p)].len as nat == b.len_prefix(i) + a@[a.key_at(p)].len as nat,
        decreases i,
    {
        if i == p + 1 {
            assert forall|j: int| 0 <= j < p implies #[trigger] a.key_at(j) == b.key_at(j) && a@[a.key_at(j)] == b@[b.key_at(j)] by {
                assert(b.key_at(j) == a.key_at(j));
            }
            Self::lemma_len_prefix_same(a, b, p);
        } else {
            Self::lemma_len_prefix_update(a, b, p, i - 1);
            assert(b.key_at(i - 1) == a.key_at(i - 1));
        }
    }

    /// The sum of the record lengths of all live keys.
    pub open spec fn live_len(&self) -> nat {
        self.len_prefix(self.spec_len() as int)
    }

    pub closed spec fn spec_len(&self) -> nat {
        self.entries@.len()
    }


    /// Every live key is handed out by `entry`, and each key handed out is live.
    pub proof fn lemma_keys(&self)
        requires
            self.wf(),
        ensures
            forall|k: Seq<char>|
                #[trigger] self@.contains_key(k) ==> exists|j: int|
                    0 <= j < self.spec_len() && self.key_at(j) == k,
            forall|j: int| 0 <= j < self.spec_len() ==> #[trigger] self@.contains_key(self.key_at(j)),
            forall|i: int, j: int|
                0 <= i < self.spec_len() && 0 <= j < self.spec_len() && i != j ==> self.key_at(i)
                    != self.key_at(j),
    {
        assert forall|j: int| 0 <= j < self.spec_len() implies #[trigger] self@.contains_key(
            self.key_at(j),
        ) by {
            assert(self.map@.contains_key(self.entries@[j].key@));
        }
        assert forall|k: Seq<char>| #[trigger] self@.contains_key(k) implies exists|j: int|
            0 <= j < self.spec_len() && self.key_at(j) == k by {
            let j = choose|j: int| 0 <= j < self.entries@.len() && self.entries@[j].key@ == k;
            assert(self.key_at(j) == k);
        }
    }

    /// An empty index.
    pub fn new() -> (r: Index)
        ensures
            r.wf(),
            r@ == Map::<Seq<char>, Loc>::empty(),
            r.spec_len() == 0,
    {
        Index { entries: Vec::new(), map: Ghost(Map::empty()) }
    }

    fn find(&self, key: &String) -> (r: Option<usize>)
        requires
            self.wf(),
        ensures
            r matches Some(i) ==> i < self.entries@.len() && self.entries@[i as int].key@ == key@,
            r is None ==> !self@.contains_key(key@),
    {
        let mut i: usize = 0;
        while i < self.entries.len()
            invariant
                i <= self.entries@.len(),
                forall|j: int| 0 <= j < i ==> self.entries@[j].key@ != key@,
            decreases self.entries@.len() - i,
        {
            if self.entries[i].key == *key {
                return Some(i);
            }
            i = i + 1;
        }
        None
    }

    /// Where the latest record of `key` lies, if the key is live.
    pub fn get(&self, key: &String) -> (r: Option<Loc>)
        requires
            self.wf(),
        ensures
            r is Some <==> self@.contains_key(key@),
            r matches Some(l) ==> l == self@[key@],
    {
        match self.find(key) {
            Some(i) => {
                assert(self.map@.contains_key(self.entries@[i as int].key@));
                Some(self.entries[i].loc)
            },
            None => None,
        }
    }

    /// Points `key` at `loc`, and returns where it pointed before.
    pub fn insert(&mut self, key: String, loc: Loc) -> (r: Option<Loc>)
        requires
            old(self).wf(),
        ensures
            final(self).wf(),
            final(self)@ == old(self)@.insert(key@, loc),
            r is Some <==> old(self)@.contains_key(key@),
            r matches Some(l) ==> l == old(self)@[key@],
            old(self)@.contains_key(key@) ==> final(self).live_len() + old(self)@[key@].len as nat
                == old(self).live_len() + loc.len as nat,
            !old(self)@.contains_key(key@) ==> final(self).live_len() == old(self).live_len()
                + loc.len as nat,
            !old(self)@.contains_key(key@) ==> final(self).spec_len() == old(self).spec_len() + 1
                && final(self).key_at(old(self).spec_len() as int) == key@ && forall|j: int|
                0 <= j < old(self).spec_len() ==> #[trigger] final(self).key_at(j) == old(self).key_at(j),
    {
        match self.find(&key) {
            Some(i) => {
                let prev = self.entries[i].loc;
                let ghost k = key@;
                let ghost old_entries = self.entries@;
                let ghost old_index = *self;
                assert(self.map@.contains_key(old_entries[i as int].key@));
                self.entries.set(i, IndexEntry { key, loc });
                self.map = Ghost(self.map@.insert(k, loc));
                assert forall|j: int| 0 <= j < self.entries@.len() implies #[trigger]
                    self.map@.contains_key(self.entries@[j].key@) && self.map@[self.entries@[
                    j].key@] == self.entries@[j].loc by {
                    if j != i {
                        assert(old(self).map@.contains_key(old_entries[j].key@));
                    }
                }
                assert forall|kk: Seq<char>| #[trigger] self.map@.contains_key(kk) implies exists|
                    j: int,
                | 0 <= j < self.entries@.len() && self.entries@[j].key@ == kk by {
                    if kk != k {
                        let j = choose|j: int|
                            0 <= j < old(self).entries@.len() && old(self).entries@[j].key@ == kk;
                        assert(self.entries@[j].key@ == kk);
                    } else {
                        assert(self.entries@[i as int].key@ == kk);
                    }
                }
                assert forall|j: int| 0 <= j < self.spec_len() && j != i implies self@[#[trigger] old_index.key_at(j)] == old_index@[old_index.key_at(j)] by {
                    assert(old_entries[j].key@ != k);
                }
                proof {
                    Self::lemma_len_prefix_update(&old_index, self, i as int, self.spec_len() as int);
                }
                Some(prev)
            },
            None => {
                let ghost k = key@;
                let ghost old_entries = self.entries@;
                let ghost old_index = *self;
                self.entries.push(IndexEntry { key, loc });
                self.map = Ghost(self.map@.insert(k, loc));
                assert forall|j: int| 0 <= j < self.entries@.len() implies #[trigger]
                    self.map@.contains_key(self.entries@[j].key@) && self.map@[self.entries@[
                    j].key@] == self.entries@[j].loc by {
                    if j < old_entries.len() {
                        assert(self.entries@[j] == old_entries[j]);
                        assert(old(self).map@.contains_key(old_entries[j].key@));
                    }
                }
                assert forall|kk: Seq<char>| #[trigger] self.map@.contains_key(kk) implies exists|
                    j: int,
                | 0 <= j < self.entries@.len() && self.entries@[j].key@ == kk by {
                    if kk != k {
                        let j = choose|j: int|
                            0 <= j < old(self).entries@.len() && old(self).entries@[j].key@ == kk;
                        assert(self.entries@[j].key@ == kk);
                    } else {
                        assert(self.entries@[self.entries@.len() - 1].key@ == kk);
                    }
                }
                let ghost n = old_entries.len() as int;
                assert forall|j: int| 0 <= j < n implies #[trigger] old_index.key_at(j) == self.key_at(j) && old_index@[old_index.key_at(j)] == self@[self.key_at(j)] by {
                    assert(old(self).map@.contains_key(old_entries[j].key@));
                }
                proof {
                    Self::lemma_len_prefix_same(&old_index, self, n);
                }
                None
            },
        }
    }

    /// Drops `key`, and returns where it pointed.
    pub fn remove(&mut self, key: &String) -> (r: Option<Loc>)
        requires
            old(self).wf(),
        ensures
            final(self).wf(),
            final(self)@ == old(self)@.remove(key@),
            r is Some <==> old(self)@.contains_key(key@),
            r matches Some(l) ==> l == old(self)@[key@],
            r matches Some(l) ==> final(self).live_len() + l.len == old(self).live_len(),
            r is None ==> *final(self) == *old(self),
    {
        match self.find(key) {
            Some(i) => {
                let ghost old_entries = self.entries@;
                let ghost old_index = *self;
                assert(self.map@.contains_key(old_entries[i as int].key@));
                let e = self.entries.remove(i);
                let ghost k = key@;
                self.map = Ghost(self.map@.remove(k));
                assert forall|j: int| 0 <= j < self.entries@.len() implies self.entries@[j]
                    == old_entries[if j < i { j } else { j + 1 }] by {}
                assert forall|j: int| 0 <= j < self.entries@.len() implies #[trigger]
                    self.map@.contains_key(self.entries@[j].key@) && self.map@[self.entries@[
                    j].key@] == self.entries@[j].loc by {
                    let jj = if j < i { j } else { j + 1 };
                    assert(old(self).map@.contains_key(old_entries[jj].key@));
                }
                assert forall|kk: Seq<char>| #[trigger] self.map@.contains_key(kk) implies exists|
                    j: int,
                | 0 <= j < self.entries@.len() && self.entries@[j].key@ == kk by {
                    let j = choose|j: int|
                        0 <= j < old_entries.len() && old_entries[j].key@ == kk;
                    assert(j != i);
                    if j < i {
                        assert(self.entries@[j].key@ == kk);
                    } else {
                        assert(self.entries@[j - 1].key@ == kk);
                    }
                }
                proof {
                    let n = self.spec_len() as int;
                    if i < n {
                        assert forall|j: int| 0 <= j < n + 1 && j != i implies old_index@.contains_key(old_index.key_at(j)) && self@[old_index.key_at(j)] == old_index@[old_index.key_at(j)] by {
                            assert(old(self).map@.contains_key(old_entries[j].key@));
                        }
                        Self::lemma_len_prefix_remove(&old_index, self, i as int, n);
                    } else {
                        assert forall|j: int| 0 <= j < n implies #[trigger] old_index.key_at(j) == self.key_at(j) && old_index@[old_index.key_at(j)] == self@[self.key_at(j)] by {
                            assert(old(self).map@.contains_key(old_entries[j].key@));
                        }
                        Self::lemma_len_prefix_same(&old_index, self, n);
                    }
                }
                Some(e.loc)
            },
            None => {
                assert(self.map@.remove(key@) =~= self.map@);
                None
            },
        }
    }

    /// The number of live keys.
    pub fn len(&self) -> (r: usize)
        ensures
            r == self.spec_len(),
    {
        self.entries.len()
    }

    /// The `i`-th entry.
    pub fn entry(&self, i: usize) -> (r: &IndexEntry)
        requires
            self.wf(),
            i < self.spec_len(),
        ensures
            r.key@ == self.key_at(i as int),
            self@.contains_key(r.key@),
            self@[r.key@] == r.loc,
    {
        &self.entries[i]
    }
}

} // verus!
