//! The log-structured store: segments of records, the index over them, the
//! count of stale bytes, and compaction.
use vstd::prelude::*;
use crate::codec::{
    Command, Decoded, Decoding, Op, decode_at, decode_spec, encode_command, encode_op, op_fits,
    copy_range, lemma_decode_encode, lemma_decode_extend, lemma_decode_fits,
    lemma_decode_len, lemma_decode_prefix,
};
use crate::error::KvsError;
use crate::index::{Index, Loc};
use crate::replay::{
    all_clean, apply_op, clean, loc_of, replay_stale, stale_cost, stale_seg, no_corruption, replay_all, replay_seg, rest, scan_corrupt,
    scan_end, lemma_replay_append, lemma_replay_cut,
};

verus! {

/// One log segment: its id and its bytes.
#[derive(Debug)]
pub struct Segment {
    pub id: u64,
    pub data: Vec<u8>,
}

/// The tunable limits of a store.
#[derive(Clone, Copy)]
pub struct Config {
    /// Compaction runs once the stale bytes exceed this count.
    pub compaction_threshold: u64,
    /// A new segment is started once the active one holds this many bytes.
    pub segment_limit: usize,
}

impl Config {
    /// Compaction past 1 MiB of stale bytes, segments of 1 MiB.
    pub fn standard() -> (r: Config)
        ensures
            r.compaction_threshold == 1048576,
            r.segment_limit == 1048576,
    {
        Config { compaction_threshold: 1048576, segment_limit: 1048576 }
    }
}

/// The bytes of each segment.
pub open spec fn seg_bytes(segs: Seq<Segment>) -> Seq<Seq<u8>> {
    segs.map_values(|s: Segment| s.data@)
}

/// The record at a place.
pub open spec fn record_at(segs: Seq<Seq<u8>>, loc: Loc) -> Decoding {
    decode_spec(rest(segs[loc.seg as int], loc.offset as int))
}

/// Whether `loc` is the place of an `Insert` record of `k`, whole inside its segment.
pub open spec fn points_at(segs: Seq<Seq<u8>>, k: Seq<char>, loc: Loc) -> bool {
    &&& loc.seg < segs.len()
    &&& loc.offset + loc.len <= segs[loc.seg as int].len()
    &&& record_at(segs, loc) matches Decoding::Complete(Op::Insert(kk, _), n) && kk == k && n
        == loc.len
}

/// Whether the record at `loc.offset` in `s` is an `Insert` of `k` of length `loc.len`.
pub open spec fn holds_insert(s: Seq<u8>, k: Seq<char>, loc: Loc) -> bool {
    decode_spec(rest(s, loc.offset as int)) matches Decoding::Complete(Op::Insert(kk, _), n) && kk
        == k && n == loc.len
}

/// The value held by the record at a place.
pub open spec fn value_at(segs: Seq<Seq<u8>>, loc: Loc) -> Seq<char> {
    match record_at(segs, loc) {
        Decoding::Complete(Op::Insert(_, v), _) => v,
        _ => Seq::empty(),
    }
}

/// The bytes of all segments together.
pub open spec fn total_bytes(segs: Seq<Seq<u8>>) -> nat
    decreases segs.len(),
{
    if segs.len() == 0 {
        0
    } else {
        total_bytes(segs.drop_last()) + segs.last().len()
    }
}

/// A byte count held in a `u64`, which stops at its largest value.
pub open spec fn cap(x: nat) -> u64 {
    if x > u64::MAX {
        u64::MAX
    } else {
        x as u64
    }
}

/// The length of the record that a key's index entry points at, or 0 where
/// the key is absent.
pub open spec fn replaced_len(m: Map<Seq<char>, Loc>, k: Seq<char>) -> nat {
    if m.contains_key(k) {
        m[k].len as nat
    } else {
        0
    }
}

/// Whether the segments of `new` are those of `old` with `rec` appended to the
/// active one, or with a new active segment, id one above, holding `rec`.
pub open spec fn appended(old: Seq<Seq<u8>>, old_ids: Seq<u64>, new: Seq<Seq<u8>>, new_ids: Seq<u64>, rec: Seq<u8>) -> bool {
    ||| new_ids == old_ids && new == old.update(old.len() - 1, old.last() + rec)
    ||| old_ids.last() < u64::MAX && new_ids == old_ids.push((old_ids.last() + 1) as u64)
        && new == old.push(rec)
}

/// Whether the store is the result of a compaction after ids up to
/// `old_last`: one segment, with a larger id, and no stale bytes.
pub open spec fn compacted(old_last: u64, new: Seq<Seq<u8>>, new_ids: Seq<u64>, new_stale: u64) -> bool {
    &&& new.len() == 1
    &&& new_ids.len() == 1
    &&& new_ids[0] > old_last
    &&& new_stale == 0
    &&& replay_stale(new) == 0
}

/// Whether a key and a value fit the record format.
pub open spec fn pair_fits(key: Seq<char>, value: Seq<char>) -> bool {
    op_fits(Op::Insert(key, value))
}

/// The store.
pub struct KvStore {
    segments: Vec<Segment>,
    index: Index,
    stale: u64,
    config: Config,
}

impl KvStore {
    /// The bytes of the segments, oldest first; the last one is active.
    pub closed spec fn data(&self) -> Seq<Seq<u8>> {
        seg_bytes(self.segments@)
    }

    /// The index: each live key and the place of its latest record.
    pub closed spec fn index_map(&self) -> Map<Seq<char>, Loc> {
        self.index@
    }

    /// The segment ids, oldest first.
    pub closed spec fn ids(&self) -> Seq<u64> {
        self.segments@.map_values(|s: Segment| s.id)
    }

    /// The sum of the lengths of the records that the index points at.
    pub closed spec fn live_bytes(&self) -> nat {
        self.index.live_len()
    }

    pub closed spec fn spec_stale(&self) -> u64 {
        self.stale
    }

    pub closed spec fn spec_config(&self) -> Config {
        self.config
    }

    /// What the store holds: each live key and its latest value.
    pub open spec fn view(&self) -> Map<Seq<char>, Seq<char>> {
        Map::new(
            |k: Seq<char>| self.index_map().contains_key(k),
            |k: Seq<char>| value_at(self.data(), self.index_map()[k]),
        )
    }

    /// The segments are a run of complete records each, with ascending ids,
    /// the index is what replaying them gives, and it points at `Insert`
    /// records of the right keys; the stale count is that of the replay, and
    /// it is what the segments hold beyond the records the index points at.
    pub open spec fn wf(&self) -> bool {
        &&& self.data().len() >= 1
        &&& self.ids().len() == self.data().len()
        &&& self.spec_stale() == cap(replay_stale(self.data()))
        &&& replay_stale(self.data()) + self.live_bytes() == total_bytes(self.data())
        &&& forall|i: int, j: int|
            0 <= i < j < self.ids().len() ==> self.ids()[i] < self.ids()[j]
        &&& self.index_wf()
        &&& all_clean(self.data())
        &&& replay_all(self.data()) == self.index_map()
        &&& forall|k: Seq<char>|
            #[trigger] self.index_map().contains_key(k) ==> points_at(
                self.data(),
                k,
                self.index_map()[k],
            )
    }

    pub closed spec fn index_wf(&self) -> bool {
        self.index.wf()
    }
}

/// What a compaction does to a store: the contents and limits stay; unless
/// the active id is the largest `u64`, the result is one segment, with the
/// next id, holding exactly the live records and nothing stale; otherwise
/// nothing changes.
pub open spec fn compaction_of(old: KvStore, new: KvStore) -> bool {
    &&& new.wf()
    &&& new.view() == old.view()
    &&& new.spec_config() == old.spec_config()
    &&& old.ids().last() < u64::MAX ==> {
        &&& new.ids() == seq![(old.ids().last() + 1) as u64]
        &&& compacted(old.ids().last(), new.data(), new.ids(), new.spec_stale())
        &&& new.data()[0].len() == old.live_bytes()
        &&& new.live_bytes() == new.data()[0].len()
        &&& total_bytes(new.data()) + replay_stale(old.data()) == total_bytes(old.data())
    }
    &&& old.ids().last() == u64::MAX ==> new.ids() == old.ids() && new.data() == old.data()
        && new.spec_stale() == old.spec_stale()
}

/// Replaying one more complete record at the end of the active segment folds
/// it into the index.
proof fn lemma_replay_all_append(segs: Seq<Seq<u8>>, r: Seq<u8>)
    requires
        segs.len() >= 1,
        all_clean(segs),
        decode_spec(r) matches Decoding::Complete(_, n) && n == r.len(),
    ensures
        decode_spec(r) matches Decoding::Complete(op, n) && replay_all(
            segs.update(segs.len() - 1, segs.last() + r),
        ) == apply_op(replay_all(segs), op, loc_of(segs.len() - 1, segs.last().len() as int, n))
            && replay_stale(segs.update(segs.len() - 1, segs.last() + r)) == replay_stale(segs)
            + stale_cost(replay_all(segs), op, n),
        total_bytes(segs.update(segs.len() - 1, segs.last() + r)) == total_bytes(segs) + r.len(),
        all_clean(segs.update(segs.len() - 1, segs.last() + r)),
{
    let last = segs.len() - 1;
    let segs2 = segs.update(last, segs.last() + r);
    assert(segs2.drop_last() =~= segs.drop_last());
    assert(clean(segs[last]));
    lemma_replay_append(replay_all(segs.drop_last()), last, segs.last(), r, 0);
    assert forall|i: int| 0 <= i < segs2.len() implies clean(#[trigger] segs2[i]) by {
        if i != last {
            assert(clean(segs[i]));
        }
    }
}

/// Appending bytes to the active segment keeps every record already in it.
proof fn lemma_record_kept(segs: Seq<Seq<u8>>, r: Seq<u8>, k: Seq<char>, loc: Loc)
    requires
        segs.len() >= 1,
        points_at(segs, k, loc),
    ensures
        points_at(segs.update(segs.len() - 1, segs.last() + r), k, loc),
        record_at(segs.update(segs.len() - 1, segs.last() + r), loc) == record_at(segs, loc),
{
    let last = segs.len() - 1;
    let segs2 = segs.update(last, segs.last() + r);
    if loc.seg as int == last {
        let s = segs.last();
        assert(rest(s + r, loc.offset as int) =~= rest(s, loc.offset as int) + r);
        lemma_decode_extend(rest(s, loc.offset as int), r);
    }
}

/// `a + b`, stopping at the largest `u64`.
fn sat_add(a: u64, b: u64) -> (r: u64)
    ensures
        r == cap((a + b) as nat),
{
    if a > u64::MAX - b {
        u64::MAX
    } else {
        a + b
    }
}

impl KvStore {
    fn add_stale(&mut self, n: u64)
        ensures
            final(self).spec_stale() == if old(self).spec_stale() + n > u64::MAX {
                u64::MAX as int
            } else {
                old(self).spec_stale() + n
            },
            final(self).segments == old(self).segments,
            final(self).index == old(self).index,
            final(self).config == old(self).config,
    {
        if self.stale > u64::MAX - n {
            self.stale = u64::MAX;
        } else {
            self.stale = self.stale + n;
        }
    }

    /// Starts a new active segment when the active one is full and a next id
    /// exists.
    fn rotate_if_full(&mut self)
        requires
            old(self).wf(),
        ensures
            final(self).wf(),
            final(self).view() == old(self).view(),
            final(self).index_map() == old(self).index_map(),
            final(self).spec_stale() == old(self).spec_stale(),
            final(self).spec_config() == old(self).spec_config(),
            (final(self).data() == old(self).data() && final(self).ids() == old(self).ids()) || (
            old(self).ids().last() < u64::MAX && final(self).ids() == old(self).ids().push(
                (old(self).ids().last() + 1) as u64,
            ) && final(self).data() == old(self).data().push(Seq::empty())),
    {
        let last = self.segments.len() - 1;
        let active_id = self.segments[last].id;
        if self.segments[last].data.len() >= self.config.segment_limit && active_id < u64::MAX {
            let ghost old_data = self.data();
            let ghost old_ids = self.ids();
            self.segments.push(Segment { id: active_id + 1, data: Vec::new() });
            proof {
                let d = self.data();
                assert(d =~= old_data.push(Seq::empty()));
                assert(self.ids() =~= old_ids.push((active_id + 1) as u64));
                assert(d.drop_last() =~= old_data);
                assert(replay_all(d) == replay_seg(replay_all(old_data), d.len() - 1, Seq::<u8>::empty(), 0));
                assert(total_bytes(d) == total_bytes(old_data) + Seq::<u8>::empty().len());
                assert(replay_stale(d) == replay_stale(old_data) + stale_seg(replay_all(old_data), d.len() - 1, Seq::<u8>::empty(), 0));
                assert(clean(Seq::<u8>::empty()));
                assert(forall|i: int| 0 <= i < d.len() ==> #[trigger] d[i] == if i < old_data.len() { old_data[i] } else { Seq::<u8>::empty() });
                assert forall|k: Seq<char>| #[trigger] self.index_map().contains_key(k) implies points_at(d, k, self.index_map()[k]) by {
                    assert(points_at(old_data, k, self.index_map()[k]));
                }
                assert(self.view() =~= old(self).view());
                assert(all_clean(d));
                assert(replay_all(d) == self.index_map());
                let ids = self.ids();
                assert forall|i: int, j: int| 0 <= i < j < ids.len() implies ids[i] < ids[j] by {
                    if j == ids.len() - 1 && i < j - 1 {
                        assert(old_ids[i] < old_ids[j - 1]);
                    }
                }
            }
        }
    }

    /// Appends a complete record to the active segment and returns its place.
    fn append(&mut self, rec: Vec<u8>) -> (loc: Loc)
        requires
            old(self).wf(),
            decode_spec(rec@) matches Decoding::Complete(_, n) && n == rec@.len(),
        ensures
            loc == loc_of(old(self).data().len() - 1, old(self).data().last().len() as int, rec@.len()),
            loc.len == rec@.len(),
            final(self).data() == old(self).data().update(old(self).data().len() - 1, old(self).data().last() + rec@),
            final(self).ids() == old(self).ids(),
            final(self).index == old(self).index,
            final(self).spec_stale() == old(self).spec_stale(),
            final(self).spec_config() == old(self).spec_config(),
            final(self).index_wf(),
            all_clean(final(self).data()),
            decode_spec(rec@) matches Decoding::Complete(op, n) && replay_all(final(self).data())
                == apply_op(replay_all(old(self).data()), op, loc) && replay_stale(final(self).data())
                == replay_stale(old(self).data()) + stale_cost(old(self).index_map(), op, n),
            record_at(final(self).data(), loc) == decode_spec(rec@),
            total_bytes(final(self).data()) == total_bytes(old(self).data()) + rec@.len(),
            loc.seg < final(self).data().len(),
            loc.offset + loc.len <= final(self).data()[loc.seg as int].len(),
            forall|k: Seq<char>|
                #[trigger] old(self).index_map().contains_key(k) ==> points_at(
                    final(self).data(),
                    k,
                    old(self).index_map()[k],
                ) && record_at(final(self).data(), old(self).index_map()[k]) == record_at(
                    old(self).data(),
                    old(self).index_map()[k],
                ),
    {
        let last = self.segments.len() - 1;
        let ghost old_data = self.data();
        let ghost old_ids = self.ids();
        let offset = self.segments[last].data.len();
        let len = rec.len();
        let ghost r0 = rec@;
        let mut seg = self.segments.swap_remove(last);
        let mut rec = rec;
        seg.data.append(&mut rec);
        self.segments.push(seg);
        proof {
            assert(self.data() =~= old_data.update(old_data.len() - 1, old_data.last() + r0));
            assert(self.ids() =~= old_ids);
            lemma_replay_all_append(old_data, r0);
            assert forall|k: Seq<char>| #[trigger] old(self).index_map().contains_key(k) implies points_at(
                self.data(),
                k,
                old(self).index_map()[k],
            ) && record_at(self.data(), old(self).index_map()[k]) == record_at(
                old_data,
                old(self).index_map()[k],
            ) by {
                lemma_record_kept(old_data, r0, k, old(self).index_map()[k]);
            }
            assert(rest(self.data()[last as int], offset as int) =~= r0);
        }
        Loc { seg: last, offset, len }
    }
}

impl KvStore {
    /// The value of `key`, or `None` where the key is not in the store.
    pub fn get(&self, key: String) -> (r: Result<Option<String>, KvsError>)
        requires
            self.wf(),
        ensures
            r is Ok,
            r matches Ok(o) ==> (o is Some <==> self.view().contains_key(key@)),
            r matches Ok(Some(v)) ==> v@ == self.view()[key@],
    {
        match self.index.get(&key) {
            None => Ok(None),
            Some(loc) => {
                proof {
                    assert(points_at(self.data(), key@, loc));
                    assert(self.segments@[loc.seg as int].data@ == self.data()[loc.seg as int]);
                }
                let seg = &self.segments[loc.seg];
                match decode_at(seg.data.as_slice(), loc.offset) {
                    Decoded::Complete { command: Command::Insert { value, .. }, .. } => Ok(
                        Some(value),
                    ),
                    _ => Err(KvsError::Corrupt { segment: seg.id, offset: loc.offset }),
                }
            },
        }
    }

    /// Points `key` at `value`: appends an `Insert` record and updates the
    /// index; the record it replaces counts as stale.
    #[verifier::rlimit(40)]
    pub fn set(&mut self, key: String, value: String) -> (r: Result<(), KvsError>)
        requires
            old(self).wf(),
            pair_fits(key@, value@),
        ensures
            final(self).wf(),
            r is Ok,
            final(self).view() == old(self).view().insert(key@, value@),
            final(self).spec_config() == old(self).spec_config(),
            final(self).ids().last() < u64::MAX ==> final(self).spec_stale()
                <= final(self).spec_config().compaction_threshold,
            (appended(
                old(self).data(),
                old(self).ids(),
                final(self).data(),
                final(self).ids(),
                encode_op(Op::Insert(key@, value@)),
            ) && final(self).spec_stale() == cap(
                (old(self).spec_stale() + replaced_len(old(self).index_map(), key@)) as nat,
            )) || compacted(
                old(self).ids().last(),
                final(self).data(),
                final(self).ids(),
                final(self).spec_stale(),
            ),
    {
        let ghost old_data = self.data();
        let ghost old_ids = self.ids();
        self.rotate_if_full();
        let ghost mid = self.view();
        let ghost mid_index = self.index_map();
        let ghost k = key@;
        let ghost v = value@;
        let cmd = Command::set(key.clone(), value);
        let rec = encode_command(&cmd);
        proof {
            lemma_decode_encode(cmd@, Seq::empty());
            assert(rec@ + Seq::<u8>::empty() =~= rec@);
        }
        let ghost rec_bytes = rec@;
        let loc = self.append(rec);
        let prev = self.index.insert(key, loc);
        proof {
            assert(self.index_map() == mid_index.insert(k, loc));
            assert(decode_spec(rec_bytes) == Decoding::Complete(Op::Insert(k, v), rec_bytes.len()));
            assert(record_at(self.data(), loc) == Decoding::Complete(Op::Insert(k, v), rec_bytes.len()));
            assert(loc.len == rec_bytes.len());
            assert(points_at(self.data(), k, loc));
            assert(value_at(self.data(), loc) == v);
            assert forall|kk: Seq<char>| #[trigger] self.index_map().contains_key(kk) implies points_at(
                self.data(),
                kk,
                self.index_map()[kk],
            ) by {
                if kk != k {
                    assert(mid_index.contains_key(kk));
                }
            }
            assert(self.view() =~= mid.insert(k, v));
        }
        match prev {
            Some(p) => self.add_stale(p.len as u64),
            None => {},
        }
        proof {
            let d = self.data();
            if self.ids() != old_ids {
                assert(d =~= old_data.push(rec_bytes));
            }
            assert(self.ids().last() >= old_ids.last());
        }
        let ghost mid_ids = self.ids();
        self.compact_if_due();
        proof {
            assert(mid_ids.last() >= old_ids.last());
        }
        Ok(())
    }

    /// Drops `key`: appends a `Remove` record so that replay does not bring the
    /// key back, and counts both the replaced record and the new one as stale.
    /// Fails with `KeyNotFound`, changing nothing, where the key is not in the
    /// store.
    pub fn remove(&mut self, key: String) -> (r: Result<(), KvsError>)
        requires
            old(self).wf(),
        ensures
            final(self).wf(),
            final(self).spec_config() == old(self).spec_config(),
            old(self).view().contains_key(key@) ==> final(self).ids().last() < u64::MAX
                ==> final(self).spec_stale() <= final(self).spec_config().compaction_threshold,
            old(self).view().contains_key(key@) ==> r is Ok && final(self).view() == old(
                self,
            ).view().remove(key@),
            old(self).view().contains_key(key@) ==> (appended(
                old(self).data(),
                old(self).ids(),
                final(self).data(),
                final(self).ids(),
                encode_op(Op::Remove(key@)),
            ) && final(self).spec_stale() == cap(
                (old(self).spec_stale() + replaced_len(old(self).index_map(), key@) + encode_op(
                    Op::Remove(key@),
                ).len()) as nat,
            )) || compacted(
                old(self).ids().last(),
                final(self).data(),
                final(self).ids(),
                final(self).spec_stale(),
            ),
            !old(self).view().contains_key(key@) ==> (r matches Err(KvsError::KeyNotFound))
                && *final(self) == *old(self),
    {
        match self.index.get(&key) {
            None => {
                return Err(KvsError::KeyNotFound);
            },
            Some(_) => {},
        }
        let ghost old_data = self.data();
        let ghost old_ids = self.ids();
        self.rotate_if_full();
        let ghost mid = self.view();
        proof {
            let loc = self.index_map()[key@];
            assert(points_at(self.data(), key@, loc));
            lemma_decode_fits(rest(self.data()[loc.seg as int], loc.offset as int));
        }
        let cmd = Command::remove(key.clone());
        let rec = encode_command(&cmd);
        proof {
            lemma_decode_encode(cmd@, Seq::empty());
            assert(rec@ + Seq::<u8>::empty() =~= rec@);
        }
        let ghost before = self.data();
        let ghost r = rec@;
        let ghost rec_bytes = rec@;
        let rec_len = rec.len();
        let loc = self.append(rec);
        let prev = self.index.remove(&key);
        match prev {
            Some(p) => self.add_stale(p.len as u64),
            None => {},
        }
        self.add_stale(rec_len as u64);
        proof {
            assert(self.view() =~= mid.remove(key@));
        }
        proof {
            let d = self.data();
            if self.ids() != old_ids {
                assert(d =~= old_data.push(rec_bytes));
            }
            assert(self.ids().last() >= old_ids.last());
        }
        let ghost mid_ids = self.ids();
        self.compact_if_due();
        proof {
            assert(mid_ids.last() >= old_ids.last());
        }
        Ok(())
    }

    /// Compacts when the stale bytes exceed the configured threshold.
    fn compact_if_due(&mut self)
        requires
            old(self).wf(),
        ensures
            final(self).wf(),
            final(self).view() == old(self).view(),
            final(self).spec_config() == old(self).spec_config(),
            final(self).ids().last() < u64::MAX ==> final(self).spec_stale()
                <= final(self).spec_config().compaction_threshold,
            (final(self).data() == old(self).data() && final(self).ids() == old(self).ids()
                && final(self).spec_stale() == old(self).spec_stale()) || compacted(
                old(self).ids().last(),
                final(self).data(),
                final(self).ids(),
                final(self).spec_stale(),
            ),
    {
        if self.stale > self.config.compaction_threshold {
            self.compact();
        }
    }

    /// Rewrites every live record into one fresh segment, whose id follows the
    /// active one, and drops all the others; the stale count starts again from
    /// zero. Where the active id is the largest `u64`, nothing changes.
    pub fn compact(&mut self)
        requires
            old(self).wf(),
        ensures
            final(self).wf(),
            compaction_of(*old(self), *final(self)),
    {
        let last = self.segments.len() - 1;
        let active_id = self.segments[last].id;
        if active_id == u64::MAX {
            return;
        }
        let ghost segs = self.data();
        let ghost old_view = self.view();
        let mut data: Vec<u8> = Vec::new();
        let mut idx = Index::new();
        let n = self.index.len();
        proof {
            self.index.lemma_keys();
        }
        let mut i: usize = 0;
        while i < n
            invariant
                self.wf(),
                segs == self.data(),
                old_view == self.view(),
                n == self.index.spec_len(),
                i <= n,
                idx.wf(),
                !scan_corrupt(data@, 0),
                scan_end(data@, 0) == data@.len(),
                replay_seg(Map::empty(), 0, data@, 0) == idx@,
                stale_seg(Map::empty(), 0, data@, 0) == 0,
                data@.len() == self.index.len_prefix(i as int),
                data@.len() == idx.len_prefix(i as int),
                idx.spec_len() == i,
                forall|j: int| 0 <= j < i ==> #[trigger] idx.key_at(j) == self.index.key_at(j),
                forall|j: int| 0 <= j < i ==> (#[trigger] idx@[self.index.key_at(j)]).len == self.index@[self.index.key_at(j)].len,
                forall|j: int| 0 <= j < i ==> #[trigger] idx@.contains_key(self.index.key_at(j)),
                forall|k: Seq<char>| #[trigger] idx@.contains_key(k) ==> exists|j: int| 0 <= j < i && self.index.key_at(j) == k,
                forall|a: int, b: int|
                    0 <= a < n && 0 <= b < n && a != b ==> self.index.key_at(a) != self.index.key_at(b),
                forall|k: Seq<char>|
                    #[trigger] idx@.contains_key(k) ==> old_view.contains_key(k) && points_at(
                        seq![data@],
                        k,
                        idx@[k],
                    ) && value_at(seq![data@], idx@[k]) == old_view[k],
            decreases n - i,
        {
            let e = self.index.entry(i);
            let loc = e.loc;
            proof {
                assert(points_at(segs, e.key@, loc));
                assert(self.segments@[loc.seg as int].data@ == segs[loc.seg as int]);
                lemma_decode_fits(rest(segs[loc.seg as int], loc.offset as int));
            }
            let d = decode_at(self.segments[loc.seg].data.as_slice(), loc.offset);
            if let Decoded::Complete { command: Command::Insert { key, value }, .. } = d {
                let cmd = Command::Insert { key, value };
                let rec = encode_command(&cmd);
                let ghost k = cmd@.key();
                proof {
                    lemma_decode_encode(cmd@, Seq::empty());
                    assert(rec@ + Seq::<u8>::empty() =~= rec@);
                }
                let ghost before = data@;
                let ghost r = rec@;
                let offset = data.len();
                let len = rec.len();
                let mut rec = rec;
                data.append(&mut rec);
                proof {
                    assert(data@ =~= before + r);
                    lemma_replay_append(Map::empty(), 0, before, r, 0);
                    assert(rest(data@, offset as int) =~= r);
                    assert forall|kk: Seq<char>| #[trigger] idx@.contains_key(kk) implies points_at(
                        seq![data@],
                        kk,
                        idx@[kk],
                    ) && value_at(seq![data@], idx@[kk]) == old_view[kk] by {
                        let l = idx@[kk];
                        assert(seq![before].update(0, seq![before].last() + r) =~= seq![data@]);
                        lemma_record_kept(seq![before], r, kk, l);
                    }
                }
                proof {
                    assert(k == self.index.key_at(i as int));
                    if idx@.contains_key(k) {
                        let j = choose|j: int| 0 <= j < i && self.index.key_at(j) == k;
                        assert(false);
                    }
                    assert(stale_seg(Map::empty(), 0, data@, 0) == 0);
                }
                let key2 = self.index.entry(i).key.clone();
                let ghost before_idx = idx@;
                let ghost idx_before = idx;
                idx.insert(key2, Loc { seg: 0, offset, len });
                proof {
                    assert forall|j: int| 0 <= j < i implies #[trigger] idx_before.key_at(j) == idx.key_at(j)
                        && idx_before@[idx_before.key_at(j)] == idx@[idx.key_at(j)] by {
                        assert(self.index.key_at(j) != k);
                    }
                    Index::lemma_len_prefix_same(&idx_before, &idx, i as int);
                    assert(idx.len_prefix(i + 1) == idx.len_prefix(i as int) + idx@[idx.key_at(i as int)].len as nat);
                    assert(self.index.len_prefix(i + 1) == self.index.len_prefix(i as int) + self.index@[self.index.key_at(i as int)].len as nat);
                    assert(len == self.index@[k].len);
                    assert forall|kk: Seq<char>| #[trigger] idx@.contains_key(kk) implies exists|j: int| 0 <= j < i + 1 && self.index.key_at(j) == kk by {
                        if kk != k {
                            assert(before_idx.contains_key(kk));
                            let j = choose|j: int| 0 <= j < i && self.index.key_at(j) == kk;
                            assert(0 <= j < i + 1 && self.index.key_at(j) == kk);
                        } else {
                            assert(self.index.key_at(i as int) == kk);
                        }
                    }
                }
            } else {
                proof {
                    assert(false);
                }
            }
            i = i + 1;
        }
        let ghost data_bytes = data@;
        self.segments = vec![Segment { id: active_id + 1, data }];
        self.index = idx;
        self.stale = 0;
        proof {
            assert(self.data() =~= seq![data_bytes]);
            assert(self.data().drop_last() =~= Seq::<Seq<u8>>::empty());
            assert(replay_all(Seq::<Seq<u8>>::empty()) == Map::<Seq<char>, Loc>::empty());
            assert(self.data().last() == data_bytes);
            assert(replay_all(self.data()) == replay_seg(Map::empty(), 0, data_bytes, 0));
            assert(replay_stale(self.data()) == replay_stale(Seq::<Seq<u8>>::empty()) + stale_seg(Map::empty(), 0, data_bytes, 0));
            assert(total_bytes(self.data()) == total_bytes(Seq::<Seq<u8>>::empty()) + data_bytes.len());
            assert(clean(self.data()[0]));
            assert(self.ids() =~= seq![(active_id + 1) as u64]);
            assert forall|k: Seq<char>| old_view.contains_key(k) implies #[trigger] self.index_map().contains_key(k) by {
                let j = choose|j: int| 0 <= j < n && old(self).index.key_at(j) == k;
            }
            assert(self.view() =~= old_view);
        }
    }
}

/// Each segment cut where its reading stops.
pub open spec fn cut_all(segs: Seq<Seq<u8>>) -> Seq<Seq<u8>> {
    segs.map_values(|s: Seq<u8>| s.take(scan_end(s, 0)))
}

/// Whether segment ids rise strictly.
pub open spec fn ids_ascending(segs: Seq<Segment>) -> bool {
    forall|i: int, j: int| 0 <= i < j < segs.len() ==> segs[i].id < segs[j].id
}

/// Replaying every segment is replaying them up to the last one, then it.
proof fn lemma_replay_all_step(segs: Seq<Seq<u8>>, i: int)
    requires
        0 <= i < segs.len(),
    ensures
        replay_all(segs.take(i + 1)) == replay_seg(replay_all(segs.take(i)), i, segs[i], 0),
{
    assert(segs.take(i + 1).drop_last() =~= segs.take(i));
}

/// A record that lies before the cut reads the same after it.
proof fn lemma_record_before_cut(s: Seq<u8>, e: int, off: int)
    requires
        0 <= off <= e <= s.len(),
        decode_spec(rest(s, off)) matches Decoding::Complete(_, n) && off + n <= e,
    ensures
        decode_spec(rest(s.take(e), off)) == decode_spec(rest(s, off)),
{
    assert(rest(s.take(e), off) =~= rest(s, off).take(e - off));
    lemma_decode_prefix(rest(s, off), e - off);
}

impl KvStore {
    /// An empty store with one empty segment, id 0.
    pub fn new() -> (r: KvStore)
        ensures
            r.wf(),
            r.view() == Map::<Seq<char>, Seq<char>>::empty(),
            r.spec_config().compaction_threshold == 1048576,
            r.spec_config().segment_limit == 1048576,
    {
        Self::with_config(Config::standard())
    }

    /// An empty store with one empty segment, id 0, and these limits.
    pub fn with_config(config: Config) -> (r: KvStore)
        ensures
            r.wf(),
            r.view() == Map::<Seq<char>, Seq<char>>::empty(),
            r.index_map() == Map::<Seq<char>, Loc>::empty(),
            r.spec_stale() == 0,
            r.spec_config() == config,
            r.data() == seq![Seq::<u8>::empty()],
            r.ids() == seq![0u64],
    {
        let r = KvStore {
            segments: vec![Segment { id: 0, data: Vec::new() }],
            index: Index::new(),
            stale: 0,
            config,
        };
        proof {
            assert(r.data() =~= seq![Seq::<u8>::empty()]);
            assert(r.data().drop_last() =~= Seq::<Seq<u8>>::empty());
            assert(replay_all(Seq::<Seq<u8>>::empty()) == Map::<Seq<char>, Loc>::empty());
            assert(replay_stale(r.data()) == replay_stale(Seq::<Seq<u8>>::empty()) + stale_seg(Map::empty(), 0, Seq::<u8>::empty(), 0));
            assert(r.ids() =~= seq![0u64]);
            assert(total_bytes(r.data()) == total_bytes(Seq::<Seq<u8>>::empty()) + 0);
            assert(clean(Seq::<u8>::empty()));
            assert(r.view() =~= Map::<Seq<char>, Seq<char>>::empty());
            assert(r.index_map() == Map::<Seq<char>, Loc>::empty());
        }
        r
    }

    /// Opens a store on the given segments, oldest first, by replaying them.
    /// A record cut off at the end of a segment ends that segment's reading
    /// and is dropped; a corrupt record before it fails the whole open. With
    /// no segments the store starts with one empty segment, id 0.
    pub fn open(segments: Vec<Segment>, config: Config) -> (r: Result<KvStore, KvsError>)
        requires
            ids_ascending(segments@),
        ensures
            r is Ok <==> no_corruption(seg_bytes(segments@)),
            r matches Ok(s) ==> s.wf() && s.index_map() == replay_all(seg_bytes(segments@))
                && s.spec_config() == config && s.spec_stale() == cap(replay_stale(seg_bytes(segments@))),
            r matches Ok(s) ==> segments@.len() > 0 ==> s.data() == cut_all(seg_bytes(segments@))
                && s.ids() == segments@.map_values(|g: Segment| g.id),
            r matches Ok(s) ==> segments@.len() == 0 ==> s.data() == seq![Seq::<u8>::empty()]
                && s.ids() == seq![0u64],
            r matches Err(e) ==> e is Corrupt,
    {
        if segments.len() == 0 {
            let s = Self::with_config(config);
            proof {
                assert(seg_bytes(segments@) =~= Seq::<Seq<u8>>::empty());
                assert(s.index_map() =~= Map::<Seq<char>, Loc>::empty());
            }
            return Ok(s);
        }
        let ghost input = seg_bytes(segments@);
        let mut index = Index::new();
        let mut out: Vec<Segment> = Vec::new();
        let mut stale: u64 = 0;
        let ghost mut total: nat = 0;
        let mut i: usize = 0;
        proof {
            assert(input.take(0) =~= Seq::<Seq<u8>>::empty());
        }
        while i < segments.len()
            invariant
                input == seg_bytes(segments@),
                ids_ascending(segments@),
                i <= segments@.len(),
                index.wf(),
                out@.len() == i,
                forall|j: int| 0 <= j < i ==> #[trigger] out@[j].data@ == input[j].take(scan_end(input[j], 0)),
                forall|j: int| 0 <= j < i ==> #[trigger] out@[j].id == segments@[j].id,
                forall|j: int| 0 <= j < i ==> !scan_corrupt(#[trigger] input[j], 0),
                all_clean(seg_bytes(out@)),
                replay_all(seg_bytes(out@)) == index@,
                replay_all(input.take(i as int)) == index@,
                total == replay_stale(input.take(i as int)),
                total == replay_stale(seg_bytes(out@)),
                stale == cap(total),
                total_bytes(seg_bytes(out@)) == total + index.live_len(),
                forall|k: Seq<char>| #[trigger] index@.contains_key(k) ==> points_at(seg_bytes(out@), k, index@[k]),
            decreases segments@.len() - i,
        {
            let ghost done = seg_bytes(out@);
            let ghost start = index@;
            let ghost total_start = total;
            let data = &segments[i].data;
            let ghost s = data@;
            assert(s == input[i as int]);
            let mut pos: usize = 0;
            let mut corrupt = false;
            loop
                invariant_except_break
                    !corrupt,
                invariant
                    s == data@,
                    0 <= pos <= s.len(),
                    index.wf(),
                    replay_seg(start, i as int, s, 0) == replay_seg(index@, i as int, s, pos as int),
                    total_start + stale_seg(start, i as int, s, 0) == total + stale_seg(index@, i as int, s, pos as int),
                    stale == cap(total),
                    total_bytes(done) + pos == total + index.live_len(),
                    scan_end(s, 0) == scan_end(s, pos as int),
                    scan_corrupt(s, 0) == (corrupt || scan_corrupt(s, pos as int)),
                    forall|k: Seq<char>| #[trigger] index@.contains_key(k) ==> {
                        let l = index@[k];
                        (l.seg < i && points_at(done, k, l)) || (l.seg == i && l.offset + l.len <= pos
                            && holds_insert(s, k, l))
                    },
                ensures
                    corrupt ==> scan_corrupt(s, 0),
                    !corrupt ==> pos == s.len() || !(decode_spec(rest(s, pos as int)) is Complete),
                    !corrupt ==> !scan_corrupt(s, pos as int),
                decreases s.len() - pos,
            {
                if pos == data.len() {
                    break;
                }
                let d = decode_at(data.as_slice(), pos);
                proof {
                    lemma_decode_len(rest(s, pos as int));
                }
                let ghost command_op = match d.spec_model() {
                    Decoding::Complete(op, _) => op,
                    _ => Op::Remove(Seq::empty()),
                };
                match d {
                    Decoded::Complete { command, len } => {
                        let loc = Loc { seg: i, offset: pos, len };
                        proof {
                            assert(loc == loc_of(i as int, pos as int, len as nat));
                        }
                        let ghost before = index@;
                        let ghost before_live = index.live_len();
                        match command {
                            Command::Insert { key, value } => {
                                assert(command_op == Op::Insert(key@, value@));
                                if let Some(p) = index.insert(key, loc) {
                                    stale = sat_add(stale, p.len as u64);
                                }
                                assert(index.live_len() + stale_cost(before, command_op, len as nat) == before_live + len);
                            },
                            Command::Remove { key } => {
                                assert(command_op == Op::Remove(key@));
                                if let Some(p) = index.remove(&key) {
                                    stale = sat_add(stale, p.len as u64);
                                }
                                stale = sat_add(stale, len as u64);
                                assert(index.live_len() + stale_cost(before, command_op, len as nat) == before_live + len);
                            },
                        }
                        proof {
                            total = total + stale_cost(before, command_op, len as nat);
                        }
                        proof {
                            assert forall|k: Seq<char>| #[trigger] index@.contains_key(k) implies {
                                let l = index@[k];
                                (l.seg < i && points_at(done, k, l)) || (l.seg == i && l.offset + l.len <= pos + len
                                    && holds_insert(s, k, l))
                            } by {}
                        }
                        pos = pos + len;
                    },
                    Decoded::Truncated => {
                        break;
                    },
                    Decoded::Corrupt => {
                        corrupt = true;
                        break;
                    },
                }
            }
            if corrupt {
                proof {
                    assert(scan_corrupt(input[i as int], 0));
                }
                return Err(KvsError::Corrupt { segment: segments[i].id, offset: pos });
            }
            proof {
                assert(replay_seg(index@, i as int, s, pos as int) == index@);
                assert(scan_end(s, pos as int) == pos);
                assert(!scan_corrupt(s, pos as int));
            }
            let kept = copy_range(data.as_slice(), 0, pos);
            let ghost t = kept@;
            proof {
                assert(t =~= s.take(pos as int));
            }
            out.push(Segment { id: segments[i].id, data: kept });
            proof {
                let now = seg_bytes(out@);
                assert(now =~= done.push(t));
                assert(now.drop_last() =~= done);
                lemma_replay_cut(start, i as int, s, 0);
                lemma_replay_all_step(input, i as int);
                assert(replay_stale(now) == replay_stale(done) + stale_seg(replay_all(done), i as int, t, 0));
                assert(total_bytes(now) == total_bytes(done) + t.len());
                assert(input.take(i as int + 1).drop_last() =~= input.take(i as int));
                assert(input.take(i as int + 1).last() == s);
                assert(replay_stale(input.take(i as int + 1)) == replay_stale(input.take(i as int)) + stale_seg(replay_all(input.take(i as int)), i as int, s, 0));
                assert(stale_seg(index@, i as int, s, pos as int) == 0);
                assert(input.take(i as int + 1).drop_last() =~= input.take(i as int));
                assert(clean(t));
                assert(all_clean(now));
                assert forall|k: Seq<char>| #[trigger] index@.contains_key(k) implies points_at(now, k, index@[k]) by {
                    let l = index@[k];
                    if l.seg < i {
                        assert(now[l.seg as int] == done[l.seg as int]);
                    } else {
                        lemma_decode_len(rest(s, l.offset as int));
                        lemma_record_before_cut(s, pos as int, l.offset as int);
                    }
                }
            }
            i = i + 1;
        }
        let mut store = KvStore { segments: out, index, stale, config };
        proof {
            assert(input.take(segments@.len() as int) =~= input);
            assert(store.data() =~= cut_all(input));
            assert(no_corruption(input));
            let ids = store.ids();
            assert forall|a: int, b: int| 0 <= a < b < ids.len() implies ids[a] < ids[b] by {
                assert(ids[a] == segments@[a].id && ids[b] == segments@[b].id);
            }
            assert(store.ids().len() == store.data().len());
            assert(store.spec_stale() == cap(replay_stale(store.data())));
            assert(store.wf());
        }
        Ok(store)
    }
}

impl KvStore {
    /// The number of segments.
    pub fn segment_count(&self) -> (r: usize)
        ensures
            r == self.data().len(),
    {
        self.segments.len()
    }

    /// The `i`-th segment, oldest first.
    pub fn segment(&self, i: usize) -> (r: &Segment)
        requires
            i < self.data().len(),
        ensures
            r.data@ == self.data()[i as int],
            r.id == self.ids()[i as int],
    {
        &self.segments[i]
    }

    /// The bytes of superseded and removed records counted since the last
    /// compaction.
    pub fn stale_bytes(&self) -> (r: u64)
        ensures
            r == self.spec_stale(),
    {
        self.stale
    }

    /// The store's limits.
    pub fn config(&self) -> (r: Config)
        ensures
            r == self.spec_config(),
    {
        self.config
    }
}

} // verus!
