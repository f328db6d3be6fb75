//! Replay: the index that a list of segments stands for, read oldest first and
//! each segment from its start, up to its last complete record.
use vstd::prelude::*;
use crate::codec::{
    Decoding, Op, decode_spec, encode_op, op_fits, lemma_decode_cut, lemma_decode_extend,
    lemma_decode_len, lemma_decode_prefix,
};
use crate::index::Loc;

verus! {

/// One record folded into the index: an `Insert` points its key at the record,
/// a `Remove` drops its key.
pub open spec fn apply_op(m: Map<Seq<char>, Loc>, op: Op, loc: Loc) -> Map<Seq<char>, Loc> {
    match op {
        Op::Insert(k, _) => m.insert(k, loc),
        Op::Remove(k) => m.remove(k),
    }
}

/// The place of the record of length `n` at `pos` in segment `seg`.
pub open spec fn loc_of(seg: int, pos: int, n: nat) -> Loc {
    Loc { seg: seg as usize, offset: pos as usize, len: n as usize }
}

/// The bytes of `s` from `pos` on.
pub open spec fn rest(s: Seq<u8>, pos: int) -> Seq<u8> {
    s.subrange(pos, s.len() as int)
}

/// Folds the records of `s` from `pos` on into `m`, stopping at the first
/// record that is cut short or corrupt.
pub open spec fn replay_seg(m: Map<Seq<char>, Loc>, seg: int, s: Seq<u8>, pos: int) -> Map<
    Seq<char>,
    Loc,
>
    decreases s.len() - pos,
{
    if pos < 0 || pos >= s.len() {
        m
    } else {
        match decode_spec(rest(s, pos)) {
            Decoding::Complete(op, n) => if n > 0 && pos + n <= s.len() {
                replay_seg(apply_op(m, op, loc_of(seg, pos, n)), seg, s, pos + n)
            } else {
                m
            },
            _ => m,
        }
    }
}

/// The bytes that one record makes stale when folded into `m`: the record it
/// replaces, and for a `Remove` also the `Remove` record itself.
pub open spec fn stale_cost(m: Map<Seq<char>, Loc>, op: Op, n: nat) -> nat {
    let replaced: nat = if m.contains_key(op.key()) {
        m[op.key()].len as nat
    } else {
        0
    };
    match op {
        Op::Insert(_, _) => replaced,
        Op::Remove(_) => replaced + n,
    }
}

/// The stale bytes that replaying `s` from `pos` on adds to `m`.
pub open spec fn stale_seg(m: Map<Seq<char>, Loc>, seg: int, s: Seq<u8>, pos: int) -> nat
    decreases s.len() - pos,
{
    if pos < 0 || pos >= s.len() {
        0
    } else {
        match decode_spec(rest(s, pos)) {
            Decoding::Complete(op, n) => if n > 0 && pos + n <= s.len() {
                stale_cost(m, op, n) + stale_seg(apply_op(m, op, loc_of(seg, pos, n)), seg, s, pos + n)
            } else {
                0
            },
            _ => 0,
        }
    }
}

/// The stale bytes of the segments: every replaced record and every `Remove`
/// record met in replay.
pub open spec fn replay_stale(segs: Seq<Seq<u8>>) -> nat
    decreases segs.len(),
{
    if segs.len() == 0 {
        0
    } else {
        replay_stale(segs.drop_last()) + stale_seg(replay_all(segs.drop_last()), segs.len() - 1, segs.last(), 0)
    }
}

/// Where reading `s` from `pos` stops: the end of its last complete record.
pub open spec fn scan_end(s: Seq<u8>, pos: int) -> int
    decreases s.len() - pos,
{
    if pos < 0 || pos >= s.len() {
        pos
    } else {
        match decode_spec(rest(s, pos)) {
            Decoding::Complete(_, n) => if n > 0 && pos + n <= s.len() {
                scan_end(s, pos + n)
            } else {
                pos
            },
            _ => pos,
        }
    }
}

/// Whether reading `s` from `pos` stops at a corrupt record.
pub open spec fn scan_corrupt(s: Seq<u8>, pos: int) -> bool
    decreases s.len() - pos,
{
    if pos < 0 || pos >= s.len() {
        false
    } else {
        match decode_spec(rest(s, pos)) {
            Decoding::Complete(_, n) => if n > 0 && pos + n <= s.len() {
                scan_corrupt(s, pos + n)
            } else {
                false
            },
            Decoding::Truncated => false,
            Decoding::Corrupt => true,
        }
    }
}

/// Whether `s` is a run of complete records and nothing else.
pub open spec fn clean(s: Seq<u8>) -> bool {
    !scan_corrupt(s, 0) && scan_end(s, 0) == s.len()
}

/// The index that the segments stand for.
pub open spec fn replay_all(segs: Seq<Seq<u8>>) -> Map<Seq<char>, Loc>
    decreases segs.len(),
{
    if segs.len() == 0 {
        Map::empty()
    } else {
        replay_seg(replay_all(segs.drop_last()), segs.len() - 1, segs.last(), 0)
    }
}

/// Whether no segment holds a corrupt record before its last complete one.
pub open spec fn no_corruption(segs: Seq<Seq<u8>>) -> bool {
    forall|i: int| 0 <= i < segs.len() ==> !scan_corrupt(#[trigger] segs[i], 0)
}

/// Whether every segment is a run of complete records.
pub open spec fn all_clean(segs: Seq<Seq<u8>>) -> bool {
    forall|i: int| 0 <= i < segs.len() ==> clean(#[trigger] segs[i])
}

pub proof fn lemma_scan_bounds(s: Seq<u8>, pos: int)
    requires
        0 <= pos <= s.len(),
    ensures
        pos <= scan_end(s, pos) <= s.len(),
    decreases s.len() - pos,
{
    if pos < s.len() {
        lemma_decode_len(rest(s, pos));
        if let Decoding::Complete(_, n) = decode_spec(rest(s, pos)) {
            lemma_scan_bounds(s, pos + n);
        }
    }
}

/// Appending a complete record to a run of complete records folds that record
/// in last.
pub proof fn lemma_replay_append(m: Map<Seq<char>, Loc>, seg: int, s: Seq<u8>, r: Seq<u8>, pos: int)
    requires
        0 <= pos <= s.len(),
        !scan_corrupt(s, pos),
        scan_end(s, pos) == s.len(),
        decode_spec(r) matches Decoding::Complete(_, n) && n == r.len(),
    ensures
        decode_spec(r) matches Decoding::Complete(op, n) && replay_seg(m, seg, s + r, pos)
            == apply_op(replay_seg(m, seg, s, pos), op, loc_of(seg, s.len() as int, n))
            && stale_seg(m, seg, s + r, pos) == stale_seg(m, seg, s, pos) + stale_cost(
            replay_seg(m, seg, s, pos),
            op,
            n,
        ),
        !scan_corrupt(s + r, pos),
        scan_end(s + r, pos) == s.len() + r.len(),
    decreases s.len() - pos,
{
    let u = s + r;
    lemma_decode_len(r);
    if pos == s.len() {
        assert(rest(u, pos) =~= r);
        if let Decoding::Complete(op, n) = decode_spec(r) {
            let m2 = apply_op(m, op, loc_of(seg, pos, n));
            assert(replay_seg(m2, seg, u, pos + n) == m2);
            assert(replay_seg(m, seg, u, pos) == m2);
            assert(stale_seg(m2, seg, u, pos + n) == 0);
            assert(stale_seg(m, seg, u, pos) == stale_cost(m, op, n));
            assert(scan_end(u, pos + n) == pos + n);
            assert(!scan_corrupt(u, pos + n));
        }
    } else {
        lemma_decode_len(rest(s, pos));
        assert(rest(u, pos) =~= rest(s, pos) + r);
        lemma_decode_extend(rest(s, pos), r);
        if let Decoding::Complete(op, n) = decode_spec(rest(s, pos)) {
            lemma_replay_append(apply_op(m, op, loc_of(seg, pos, n)), seg, s, r, pos + n);
        }
    }
}

/// Cutting a segment where its reading stops changes nothing of what it
/// stands for.
pub proof fn lemma_replay_cut(m: Map<Seq<char>, Loc>, seg: int, s: Seq<u8>, pos: int)
    requires
        0 <= pos <= s.len(),
    ensures
        replay_seg(m, seg, s.take(scan_end(s, pos)), pos) == replay_seg(m, seg, s, pos),
        stale_seg(m, seg, s.take(scan_end(s, pos)), pos) == stale_seg(m, seg, s, pos),
        scan_end(s.take(scan_end(s, pos)), pos) == scan_end(s, pos),
        !scan_corrupt(s.take(scan_end(s, pos)), pos),
    decreases s.len() - pos,
{
    lemma_scan_bounds(s, pos);
    let e = scan_end(s, pos);
    let t = s.take(e);
    if pos < s.len() {
        lemma_decode_len(rest(s, pos));
        match decode_spec(rest(s, pos)) {
            Decoding::Complete(op, n) => {
                lemma_scan_bounds(s, pos + n);
                assert(rest(t, pos) =~= rest(s, pos).take(e - pos));
                lemma_decode_prefix(rest(s, pos), e - pos);
                lemma_replay_cut(apply_op(m, op, loc_of(seg, pos, n)), seg, s, pos + n);
                assert(t.take(e) =~= t);
            },
            _ => {
                assert(e == pos);
            },
        }
    }
}

/// A segment whose last record was cut off mid-write reads as the complete
/// records before it: no corruption, and the same index.
pub proof fn lemma_replay_cut_record(
    m: Map<Seq<char>, Loc>,
    seg: int,
    s: Seq<u8>,
    op: Op,
    k: nat,
    pos: int,
)
    requires
        0 <= pos <= s.len(),
        !scan_corrupt(s, pos),
        scan_end(s, pos) == s.len(),
        op_fits(op),
        k < encode_op(op).len(),
    ensures
        replay_seg(m, seg, s + encode_op(op).take(k as int), pos) == replay_seg(m, seg, s, pos),
        !scan_corrupt(s + encode_op(op).take(k as int), pos),
        scan_end(s + encode_op(op).take(k as int), pos) == s.len(),
    decreases s.len() - pos,
{
    let r = encode_op(op).take(k as int);
    let u = s + r;
    lemma_decode_cut(op, k);
    if pos == s.len() {
        assert(rest(u, pos) =~= r);
    } else {
        lemma_decode_len(rest(s, pos));
        assert(rest(u, pos) =~= rest(s, pos) + r);
        lemma_decode_extend(rest(s, pos), r);
        if let Decoding::Complete(op2, n) = decode_spec(rest(s, pos)) {
            lemma_replay_cut_record(apply_op(m, op2, loc_of(seg, pos, n)), seg, s, op, k, pos + n);
        }
    }
}

} // verus!
