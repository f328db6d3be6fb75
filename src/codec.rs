//! The record format: a command framed so that a segment can be read forward
//! from its start, and a cut-off final record is recognised as such.
//!
//! A record is a 9-byte header followed by the key bytes and the value bytes:
//! a tag (`0` for `Insert`, `1` for `Remove`), the key length and the value length,
//! both as 32-bit little-endian integers. A `Remove` carries an empty value.
use vstd::prelude::*;
use vstd::utf8::*;

verus! {

/// Length of the record header.
pub const HEADER_LEN: usize = 9;

/// Tag byte of an `Insert` record.
pub const TAG_INSERT: u8 = 0;

/// Tag byte of a `Remove` record.
pub const TAG_REMOVE: u8 = 1;

/// A command written to the log.
#[derive(Debug)]
pub enum Command {
    Insert { key: String, value: String },
    Remove { key: String },
}

/// What a command means, over the characters of its strings.
pub enum Op {
    Insert(Seq<char>, Seq<char>),
    Remove(Seq<char>),
}

/// The outcome of reading one record at the start of a byte sequence.
pub enum Decoding {
    /// A whole record holding this operation, and its length.
    Complete(Op, nat),
    /// The bytes end before the record does.
    Truncated,
    /// The bytes cannot be the start of a record.
    Corrupt,
}

/// The result of reading one record with `decode_at`.
#[derive(Debug)]
pub enum Decoded {
    Complete { command: Command, len: usize },
    Truncated,
    Corrupt,
}

impl Command {
    /// An `Insert` command.
    pub fn set(key: String, value: String) -> (r: Command)
        ensures
            r@ == Op::Insert(key@, value@),
    {
        Command::Insert { key, value }
    }

    /// A `Remove` command.
    pub fn remove(key: String) -> (r: Command)
        ensures
            r@ == Op::Remove(key@),
    {
        Command::Remove { key }
    }

    /// The key that the command is about.
    pub fn key(&self) -> (r: &String)
        ensures
            r@ == self@.key(),
    {
        match self {
            Command::Insert { key, .. } => key,
            Command::Remove { key } => key,
        }
    }
}

impl View for Command {
    type V = Op;

    open spec fn view(&self) -> Op {
        match self {
            Command::Insert { key, value } => Op::Insert(key@, value@),
            Command::Remove { key } => Op::Remove(key@),
        }
    }
}

impl Op {
    pub open spec fn key(self) -> Seq<char> {
        match self {
            Op::Insert(k, _) => k,
            Op::Remove(k) => k,
        }
    }
}

impl Decoded {
    pub open spec fn spec_model(self) -> Decoding {
        match self {
            Decoded::Complete { command, len } => Decoding::Complete(command@, len as nat),
            Decoded::Truncated => Decoding::Truncated,
            Decoded::Corrupt => Decoding::Corrupt,
        }
    }
}

/// The little-endian value of the four bytes of `s` from `i` on.
pub open spec fn le32(s: Seq<u8>, i: int) -> nat {
    (s[i] as nat) + 256 * (s[i + 1] as nat) + 65536 * (s[i + 2] as nat) + 16777216 * (s[i + 3] as nat)
}

/// The four little-endian bytes of `x`.
pub open spec fn le32_bytes(x: u32) -> Seq<u8> {
    seq![(x % 256) as u8, ((x / 256) % 256) as u8, ((x / 65536) % 256) as u8, (x / 16777216) as u8]
}

/// The bytes of a string: its UTF-8 encoding.
pub open spec fn utf8_of(s: Seq<char>) -> Seq<u8> {
    encode_utf8(s)
}

/// Whether a command's strings fit the 32-bit lengths of the header.
pub open spec fn op_fits(op: Op) -> bool {
    match op {
        Op::Insert(k, v) => utf8_of(k).len() <= u32::MAX && utf8_of(v).len() <= u32::MAX,
        Op::Remove(k) => utf8_of(k).len() <= u32::MAX,
    }
}

/// The record of a command.
pub open spec fn encode_op(op: Op) -> Seq<u8>
    recommends
        op_fits(op),
{
    match op {
        Op::Insert(k, v) => seq![TAG_INSERT] + le32_bytes(utf8_of(k).len() as u32) + le32_bytes(
            utf8_of(v).len() as u32,
        ) + utf8_of(k) + utf8_of(v),
        Op::Remove(k) => seq![TAG_REMOVE] + le32_bytes(utf8_of(k).len() as u32) + le32_bytes(0)
            + utf8_of(k),
    }
}

/// Reading the record at the start of `s`.
#[verifier::opaque]
pub open spec fn decode_spec(s: Seq<u8>) -> Decoding {
    if s.len() < HEADER_LEN {
        Decoding::Truncated
    } else {
        let tag = s[0];
        let klen = le32(s, 1) as int;
        let vlen = le32(s, 5) as int;
        let n = (HEADER_LEN + klen + vlen) as nat;
        if tag != TAG_INSERT && tag != TAG_REMOVE {
            Decoding::Corrupt
        } else if tag == TAG_REMOVE && vlen != 0 {
            Decoding::Corrupt
        } else if s.len() < n {
            Decoding::Truncated
        } else {
            let kb = s.subrange(HEADER_LEN as int, HEADER_LEN + klen);
            let vb = s.subrange(HEADER_LEN + klen, n as int);
            if !valid_utf8(kb) || !valid_utf8(vb) {
                Decoding::Corrupt
            } else if tag == TAG_INSERT {
                Decoding::Complete(Op::Insert(decode_utf8(kb), decode_utf8(vb)), n)
            } else {
                Decoding::Complete(Op::Remove(decode_utf8(kb)), n)
            }
        }
    }
}

proof fn lemma_le32_round_trip(x: u32)
    ensures
        le32(le32_bytes(x), 0) == x,
{
    let b = le32_bytes(x);
    assert(b[0] as nat == x % 256);
    assert(b[1] as nat == (x / 256) % 256);
    assert(b[2] as nat == (x / 65536) % 256);
    assert(b[3] as nat == x / 16777216);
    assert((x % 256) + 256 * ((x / 256) % 256) + 65536 * ((x / 65536) % 256) + 16777216 * (x
        / 16777216) == x) by (nonlinear_arith);
}

/// Reading a record back yields the command it was made from, and its whole
/// length, whatever bytes follow it.
pub proof fn lemma_decode_encode(op: Op, rest: Seq<u8>)
    requires
        op_fits(op),
    ensures
        decode_spec(encode_op(op) + rest) == Decoding::Complete(op, encode_op(op).len()),
{
    reveal(decode_spec);
    broadcast use encode_utf8_valid_utf8, encode_utf8_decode_utf8;

    let e = encode_op(op);
    let s = e + rest;
    match op {
        Op::Insert(k, v) => {
            let kl = utf8_of(k).len() as u32;
            let vl = utf8_of(v).len() as u32;
            lemma_le32_round_trip(kl);
            lemma_le32_round_trip(vl);
            assert(le32(s, 1) == le32(le32_bytes(kl), 0));
            assert(le32(s, 5) == le32(le32_bytes(vl), 0));
            assert(s.subrange(9, 9 + kl) =~= utf8_of(k));
            assert(s.subrange(9 + kl, 9 + kl + vl) =~= utf8_of(v));
        },
        Op::Remove(k) => {
            let kl = utf8_of(k).len() as u32;
            lemma_le32_round_trip(kl);
            lemma_le32_round_trip(0);
            assert(le32(s, 1) == le32(le32_bytes(kl), 0));
            assert(le32(s, 5) == le32(le32_bytes(0), 0));
            assert(s.subrange(9, 9 + kl) =~= utf8_of(k));
            assert(s.subrange(9 + kl, 9 + kl) =~= utf8_of(Seq::empty()));
        },
    }
}

/// A complete record stays the same record whatever bytes follow it.
pub proof fn lemma_decode_extend(s: Seq<u8>, t: Seq<u8>)
    requires
        decode_spec(s) is Complete,
    ensures
        decode_spec(s + t) == decode_spec(s),
{
    reveal(decode_spec);
    let u = s + t;
    assert(u.subrange(0, s.len() as int) =~= s);
    assert(u[0] == s[0] && u[1] == s[1] && u[2] == s[2] && u[3] == s[3] && u[4] == s[4]);
    assert(u[5] == s[5] && u[6] == s[6] && u[7] == s[7] && u[8] == s[8]);
    let klen = le32(s, 1) as int;
    let vlen = le32(s, 5) as int;
    assert(u.subrange(9, 9 + klen) =~= s.subrange(9, 9 + klen));
    assert(u.subrange(9 + klen, 9 + klen + vlen) =~= s.subrange(9 + klen, 9 + klen + vlen));
}

/// A record cut short, anywhere before its end, reads as truncated: never as
/// corrupt.
pub proof fn lemma_decode_cut(op: Op, k: nat)
    requires
        op_fits(op),
        k < encode_op(op).len(),
    ensures
        decode_spec(encode_op(op).take(k as int)) == Decoding::Truncated,
{
    reveal(decode_spec);
    let e = encode_op(op);
    let p = e.take(k as int);
    lemma_decode_encode(op, Seq::empty());
    assert(e + Seq::<u8>::empty() =~= e);
    if k >= HEADER_LEN {
        assert(p[0] == e[0] && p[1] == e[1] && p[2] == e[2] && p[3] == e[3] && p[4] == e[4]);
        assert(p[5] == e[5] && p[6] == e[6] && p[7] == e[7] && p[8] == e[8]);
    }
}

/// Relies on `String::from_utf8`: it accepts exactly the valid UTF-8 byte
/// sequences, and the string it returns holds those bytes.
#[verifier::external_body]
fn string_from_utf8(bytes: Vec<u8>) -> (r: Option<String>)
    ensures
        r is Some <==> valid_utf8(bytes@),
        r matches Some(s) ==> s@ == decode_utf8(bytes@),
{
    String::from_utf8(bytes).ok()
}

fn push_le32(out: &mut Vec<u8>, x: u32)
    ensures
        final(out)@ == old(out)@ + le32_bytes(x),
{
    out.push((x % 256) as u8);
    out.push(((x / 256) % 256) as u8);
    out.push(((x / 65536) % 256) as u8);
    out.push((x / 16777216) as u8);
    assert(final(out)@ =~= old(out)@ + le32_bytes(x));
}

fn push_bytes(out: &mut Vec<u8>, b: &[u8])
    ensures
        final(out)@ == old(out)@ + b@,
{
    let ghost start = out@;
    let mut i: usize = 0;
    while i < b.len()
        invariant
            i <= b@.len(),
            out@ == start + b@.take(i as int),
        decreases b@.len() - i,
    {
        out.push(b[i]);
        i = i + 1;
        assert(out@ =~= start + b@.take(i as int));
    }
    assert(b@.take(i as int) =~= b@);
}

/// The record of a command.
pub fn encode_command(command: &Command) -> (r: Vec<u8>)
    requires
        op_fits(command@),
    ensures
        r@ == encode_op(command@),
{
    let mut out: Vec<u8> = Vec::new();
    match command {
        Command::Insert { key, value } => {
            let kb = key.as_str().as_bytes();
            let vb = value.as_str().as_bytes();
            out.push(TAG_INSERT);
            push_le32(&mut out, kb.len() as u32);
            push_le32(&mut out, vb.len() as u32);
            push_bytes(&mut out, kb);
            push_bytes(&mut out, vb);
        },
        Command::Remove { key } => {
            let kb = key.as_str().as_bytes();
            out.push(TAG_REMOVE);
            push_le32(&mut out, kb.len() as u32);
            push_le32(&mut out, 0);
            push_bytes(&mut out, kb);
        },
    }
    proof {
        assert(out@ =~= encode_op(command@));
    }
    out
}

fn read_le32(data: &[u8], i: usize) -> (r: u64)
    requires
        i + 4 <= data@.len(),
    ensures
        r == le32(data@, i as int),
{
    data[i] as u64 + 256 * (data[i + 1] as u64) + 65536 * (data[i + 2] as u64) + 16777216 * (
    data[i + 3] as u64)
}

pub(crate) fn copy_range(data: &[u8], from: usize, to: usize) -> (r: Vec<u8>)
    requires
        from <= to <= data@.len(),
    ensures
        r@ == data@.subrange(from as int, to as int),
{
    let mut out: Vec<u8> = Vec::new();
    let mut i: usize = from;
    while i < to
        invariant
            from <= i <= to <= data@.len(),
            out@ == data@.subrange(from as int, i as int),
        decreases to - i,
    {
        out.push(data[i]);
        i = i + 1;
        assert(out@ =~= data@.subrange(from as int, i as int));
    }
    out
}

/// Reads the record that starts at `pos` in `data`.
pub fn decode_at(data: &[u8], pos: usize) -> (r: Decoded)
    requires
        pos <= data@.len(),
    ensures
        r.spec_model() == decode_spec(data@.subrange(pos as int, data@.len() as int)),
        r matches Decoded::Complete { len, .. } ==> pos + len <= data@.len(),
{
    reveal(decode_spec);
    let ghost s = data@.subrange(pos as int, data@.len() as int);
    let avail = data.len() - pos;
    if avail < HEADER_LEN {
        return Decoded::Truncated;
    }
    let tag = data[pos];
    let klen = read_le32(data, pos + 1);
    let vlen = read_le32(data, pos + 5);
    assert(klen == le32(s, 1) && vlen == le32(s, 5));
    if tag != TAG_INSERT && tag != TAG_REMOVE {
        return Decoded::Corrupt;
    }
    if tag == TAG_REMOVE && vlen != 0 {
        return Decoded::Corrupt;
    }
    let n = HEADER_LEN as u64 + klen + vlen;
    if (avail as u64) < n {
        return Decoded::Truncated;
    }
    let n = n as usize;
    let kend = pos + HEADER_LEN + klen as usize;
    let kb = copy_range(data, pos + HEADER_LEN, kend);
    let vb = copy_range(data, kend, pos + n);
    assert(kb@ =~= s.subrange(HEADER_LEN as int, HEADER_LEN + klen));
    assert(vb@ =~= s.subrange(HEADER_LEN + klen, n as int));
    let key = match string_from_utf8(kb) {
        Some(k) => k,
        None => return Decoded::Corrupt,
    };
    let value = match string_from_utf8(vb) {
        Some(v) => v,
        None => return Decoded::Corrupt,
    };
    if tag == TAG_INSERT {
        Decoded::Complete { command: Command::Insert { key, value }, len: n }
    } else {
        Decoded::Complete { command: Command::Remove { key }, len: n }
    }
}

/// A complete record reads the same from any prefix that still holds it.
pub proof fn lemma_decode_prefix(s: Seq<u8>, k: int)
    requires
        decode_spec(s) matches Decoding::Complete(_, n) && n <= k <= s.len(),
    ensures
        decode_spec(s.take(k)) == decode_spec(s),
{
    reveal(decode_spec);
    let u = s.take(k);
    assert(u[0] == s[0] && u[1] == s[1] && u[2] == s[2] && u[3] == s[3] && u[4] == s[4]);
    assert(u[5] == s[5] && u[6] == s[6] && u[7] == s[7] && u[8] == s[8]);
    let klen = le32(s, 1) as int;
    let vlen = le32(s, 5) as int;
    assert(u.subrange(9, 9 + klen) =~= s.subrange(9, 9 + klen));
    assert(u.subrange(9 + klen, 9 + klen + vlen) =~= s.subrange(9 + klen, 9 + klen + vlen));
}

/// A complete record is never empty.
pub proof fn lemma_decode_len(s: Seq<u8>)
    ensures
        decode_spec(s) matches Decoding::Complete(_, n) ==> HEADER_LEN <= n <= s.len(),
{
    reveal(decode_spec);
}

/// What a record holds fits the record format again.
pub proof fn lemma_decode_fits(s: Seq<u8>)
    ensures
        decode_spec(s) matches Decoding::Complete(op, n) ==> op_fits(op) && n == encode_op(op).len(),
{
    reveal(decode_spec);
    broadcast use decode_utf8_encode_utf8;

    if s.len() >= HEADER_LEN {
        assert(le32(s, 1) <= u32::MAX);
        assert(le32(s, 5) <= u32::MAX);
    }
}

} // verus!
