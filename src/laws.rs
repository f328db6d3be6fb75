//! Properties of the store, stated over its model and proved.
use vstd::prelude::*;
use crate::codec::{Op, encode_op, op_fits};
use crate::index::Loc;
use crate::replay::{
    clean, no_corruption, replay_all, replay_seg, scan_corrupt, scan_end,
    lemma_replay_cut_record,
};
use crate::engine::KvsEngine;
use crate::store::{KvStore, compaction_of, cut_all, total_bytes};

verus! {

/// One operation applied to the contents of an engine, as `set` and `remove`
/// state it; a `Remove` of an absent key leaves the contents as they are.
pub open spec fn step(m: Map<Seq<char>, Seq<char>>, op: Op) -> Map<Seq<char>, Seq<char>> {
    match op {
        Op::Insert(k, v) => m.insert(k, v),
        Op::Remove(k) => m.remove(k),
    }
}

/// The contents after a sequence of operations, from `m` on.
pub open spec fn run(m: Map<Seq<char>, Seq<char>>, ops: Seq<Op>) -> Map<Seq<char>, Seq<char>>
    decreases ops.len(),
{
    if ops.len() == 0 {
        m
    } else {
        step(run(m, ops.drop_last()), ops.last())
    }
}

/// The value that the last operation on `k` left: the value of its last
/// `Insert`, or nothing when that operation was a `Remove` or there was none.
pub open spec fn last_write(ops: Seq<Op>, k: Seq<char>) -> Option<Seq<char>>
    decreases ops.len(),
{
    if ops.len() == 0 {
        None
    } else if ops.last().key() == k {
        match ops.last() {
            Op::Insert(_, v) => Some(v),
            Op::Remove(_) => None,
        }
    } else {
        last_write(ops.drop_last(), k)
    }
}

/// After any sequence of sets and removes on an empty engine, a key holds the
/// value of its most recent set, and is absent when its most recent operation
/// was a remove or it was never set.
pub proof fn lemma_last_write_wins(ops: Seq<Op>, k: Seq<char>)
    ensures
        run(Map::empty(), ops).contains_key(k) <==> last_write(ops, k) is Some,
        last_write(ops, k) matches Some(v) ==> run(Map::empty(), ops)[k] == v,
    decreases ops.len(),
{
    if ops.len() > 0 {
        lemma_last_write_wins(ops.drop_last(), k);
    }
}

/// A remove of an absent key, which fails and leaves an engine's contents as
/// they are, is the step of that remove: so every call of `set` and `remove`
/// takes an engine's contents one `step` on.
pub proof fn lemma_absent_remove_is_step(m: Map<Seq<char>, Seq<char>>, k: Seq<char>)
    requires
        !m.contains_key(k),
    ensures
        step(m, Op::Remove(k)) == m,
{
    assert(m.remove(k) =~= m);
}

/// Whether each state of an engine comes from the one before by the
/// operation of the same position, as `set` and `remove` state it.
pub open spec fn follows<E: KvsEngine>(states: Seq<E>, ops: Seq<Op>) -> bool {
    &&& states.len() == ops.len() + 1
    &&& forall|i: int|
        0 <= i < ops.len() ==> #[trigger] states[i + 1].contents() == step(
            states[i].contents(),
            ops[i],
        )
}

/// An engine that starts empty and goes through a sequence of sets and
/// removes holds what the operations say: each key has the value of its most
/// recent set, and is absent when its most recent operation was a remove or
/// it was never set.
pub proof fn lemma_engine_runs<E: KvsEngine>(states: Seq<E>, ops: Seq<Op>, k: Seq<char>)
    requires
        follows(states, ops),
        states[0].contents() == Map::<Seq<char>, Seq<char>>::empty(),
    ensures
        states.last().contents() == run(Map::empty(), ops),
        states.last().contents().contains_key(k) <==> last_write(ops, k) is Some,
        last_write(ops, k) matches Some(v) ==> states.last().contents()[k] == v,
    decreases ops.len(),
{
    if ops.len() == 0 {
        assert(run(Map::empty(), ops) == Map::<Seq<char>, Seq<char>>::empty());
    } else {
        let n = ops.len() - 1;
        let front = states.take(n + 1);
        assert forall|i: int| 0 <= i < ops.drop_last().len() implies #[trigger] front[i + 1].contents()
            == step(front[i].contents(), ops.drop_last()[i]) by {
            assert(states[i + 1].contents() == step(states[i].contents(), ops[i]));
        }
        lemma_engine_runs(front, ops.drop_last(), k);
        assert(states[n + 1].contents() == step(states[n].contents(), ops[n]));
    }
    lemma_last_write_wins(ops, k);
}

/// Two engines, of any two backends, that start empty and go through the
/// same operations hold the same contents.
pub proof fn lemma_backends_agree<E: KvsEngine, F: KvsEngine>(a: Seq<E>, b: Seq<F>, ops: Seq<Op>)
    requires
        follows(a, ops),
        follows(b, ops),
        a[0].contents() == Map::<Seq<char>, Seq<char>>::empty(),
        b[0].contents() == Map::<Seq<char>, Seq<char>>::empty(),
    ensures
        a.last().contents() == b.last().contents(),
{
    lemma_engine_runs(a, ops, Seq::empty());
    lemma_engine_runs(b, ops, Seq::empty());
}

/// Reopening a store on its own segments, with nothing written in between,
/// finds no corruption, keeps every segment as it is, and gives the same index
/// and the same contents.
pub proof fn lemma_reopen(s: &KvStore, t: &KvStore)
    requires
        s.wf(),
        t.wf(),
        t.index_map() == replay_all(s.data()),
        t.data() == cut_all(s.data()),
    ensures
        no_corruption(s.data()),
        t.data() == s.data(),
        t.index_map() == s.index_map(),
        t.view() == s.view(),
{
    let d = s.data();
    assert forall|i: int| 0 <= i < d.len() implies !scan_corrupt(#[trigger] d[i], 0) by {
        assert(clean(d[i]));
    }
    assert forall|i: int| 0 <= i < d.len() implies #[trigger] cut_all(d)[i] == d[i] by {
        assert(clean(d[i]));
        assert(d[i].take(d[i].len() as int) =~= d[i]);
    }
    assert(cut_all(d) =~= d);
    assert(t.view() =~= s.view());
}

/// Compacting twice in a row, with no writes in between, changes nothing
/// that the first compaction did not: the contents are those from before,
/// and the second compaction writes a segment of the same length, with
/// nothing stale.
pub proof fn lemma_compact_twice(before: KvStore, once: KvStore, twice: KvStore)
    requires
        before.wf(),
        before.ids().last() < u64::MAX - 1,
        compaction_of(before, once),
        compaction_of(once, twice),
    ensures
        twice.view() == before.view(),
        twice.data().len() == 1,
        twice.data()[0].len() == once.data()[0].len(),
        twice.spec_stale() == 0,
{
    assert(once.ids().last() == before.ids().last() + 1);
}

/// A compaction of a store with stale bytes leaves strictly fewer bytes in
/// its segments, and the same contents.
pub proof fn lemma_compaction_shrinks(before: KvStore, after: KvStore)
    requires
        before.wf(),
        before.ids().last() < u64::MAX,
        before.spec_stale() > 0,
        compaction_of(before, after),
    ensures
        total_bytes(after.data()) < total_bytes(before.data()),
        after.view() == before.view(),
{
}

proof fn lemma_replay_all_same_seg(segs: Seq<Seq<u8>>, i: int, t: Seq<u8>)
    requires
        0 <= i < segs.len(),
        forall|m: Map<Seq<char>, Loc>| #[trigger] replay_seg(m, i, t, 0) == replay_seg(m, i, segs[i], 0),
    ensures
        replay_all(segs.update(i, t)) == replay_all(segs),
    decreases segs.len(),
{
    let u = segs.update(i, t);
    if i == segs.len() - 1 {
        assert(u.drop_last() =~= segs.drop_last());
        assert(replay_seg(replay_all(segs.drop_last()), i, t, 0) == replay_seg(replay_all(segs.drop_last()), i, segs[i], 0));
    } else {
        assert(u.drop_last() =~= segs.drop_last().update(i, t));
        lemma_replay_all_same_seg(segs.drop_last(), i, t);
    }
}

/// A segment cut off in the middle of a record, as a crash during an append
/// leaves it, replays as the complete records before the cut: opening does
/// not fail on it, and every operation written in full stays visible.
pub proof fn lemma_cut_record_tolerated(segs: Seq<Seq<u8>>, i: int, op: Op, k: nat)
    requires
        0 <= i < segs.len(),
        no_corruption(segs),
        clean(segs[i]),
        op_fits(op),
        k < encode_op(op).len(),
    ensures
        no_corruption(segs.update(i, segs[i] + encode_op(op).take(k as int))),
        scan_end(segs[i] + encode_op(op).take(k as int), 0) == segs[i].len(),
        replay_all(segs.update(i, segs[i] + encode_op(op).take(k as int))) == replay_all(segs),
{
    let t = segs[i] + encode_op(op).take(k as int);
    assert forall|m: Map<Seq<char>, Loc>| #[trigger] replay_seg(m, i, t, 0) == replay_seg(m, i, segs[i], 0) by {
        lemma_replay_cut_record(m, i, segs[i], op, k, 0);
    }
    lemma_replay_cut_record(Map::empty(), i, segs[i], op, k, 0);
    lemma_replay_all_same_seg(segs, i, t);
    let u = segs.update(i, t);
    assert forall|j: int| 0 <= j < u.len() implies !scan_corrupt(#[trigger] u[j], 0) by {
        if j != i {
            assert(u[j] == segs[j]);
        }
    }
}

} // verus!
