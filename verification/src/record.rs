//! The data log's record format and its replay.
//!
//! A record is `crc(4) | seq(8) | op(1) | klen(4) | vlen(4) | key | value`,
//! integers little-endian, the CRC-32 taken over everything after it.
//! Replay reads records from the start and stops at the first one that is
//! cut short, fails its checksum or names an unknown operation.
use vstd::bytes::{
    lemma_auto_spec_u32_to_from_le_bytes, lemma_auto_spec_u64_to_from_le_bytes,
    spec_u32_from_le_bytes, spec_u32_to_le_bytes, spec_u64_from_le_bytes, spec_u64_to_le_bytes,
    u32_from_le_bytes, u32_to_le_bytes, u64_from_le_bytes, u64_to_le_bytes,
};
use vstd::prelude::*;
use vstd::slice::{slice_subrange, slice_to_vec};
use vstd::utf8::{decode_utf8, encode_utf8, encode_utf8_decode_utf8, encode_utf8_valid_utf8, valid_utf8};

verus! {

pub const OP_PUT: u8 = 1;

pub const OP_DEL: u8 = 2;

/// Bytes before the key: crc(4) + seq(8) + op(1) + klen(4) + vlen(4).
pub const HEADER_LEN: u64 = 21;

/// Where a value sits in the data log, and how long it is.
#[derive(Clone, Copy, Debug)]
pub struct ValuePos {
    pub offset: u64,
    pub len: u32,
}

/// The CRC-32 (IEEE) checksum of a byte string, as `crc32fast::hash`
/// computes it.
pub uninterp spec fn crc32_of(bytes: Seq<u8>) -> u32;

/// Trusted: `crc32fast::hash`; the contract names its result as a function
/// of the bytes alone.
#[verifier::external_body]
fn crc32(bytes: &[u8]) -> (c: u32)
    ensures
        c == crc32_of(bytes@),
{
    crc32fast::hash(bytes)
}

/// What `String::from_utf8_lossy` makes of a byte string.
pub uninterp spec fn utf8_lossy(bytes: Seq<u8>) -> Seq<char>;

/// Trusted: `String::from_utf8_lossy`, turned into an owned `String`. The
/// contract names the result as a function of the bytes, and states what
/// std documents: valid UTF-8 is decoded as it is.
#[verifier::external_body]
fn string_from_utf8_lossy(bytes: &[u8]) -> (s: String)
    ensures
        s@ == utf8_lossy(bytes@),
        valid_utf8(bytes@) ==> s@ == decode_utf8(bytes@),
{
    String::from_utf8_lossy(bytes).into_owned()
}

/// The key that replay reads from a record's key bytes.
pub open spec fn key_from_bytes(bytes: Seq<u8>) -> Seq<char> {
    if valid_utf8(bytes) {
        decode_utf8(bytes)
    } else {
        utf8_lossy(bytes)
    }
}

/// Everything of a record after its checksum.
pub open spec fn record_body(seq: u64, op: u8, key: Seq<u8>, value: Seq<u8>) -> Seq<u8> {
    spec_u64_to_le_bytes(seq) + seq![op] + spec_u32_to_le_bytes(key.len() as u32)
        + spec_u32_to_le_bytes(value.len() as u32) + key + value
}

/// A whole record: the checksum of the body, then the body.
pub open spec fn record_bytes(seq: u64, op: u8, key: Seq<u8>, value: Seq<u8>) -> Seq<u8> {
    spec_u32_to_le_bytes(crc32_of(record_body(seq, op, key, value))) + record_body(
        seq,
        op,
        key,
        value,
    )
}

/// The record layout: the CRC-32 of everything after it, then the sequence
/// number, the operation, the key's and the value's lengths, integers
/// little-endian, then the key and the value.
pub proof fn lemma_record_layout(seq: u64, op: u8, key: Seq<u8>, value: Seq<u8>)
    requires
        key.len() <= u32::MAX,
        value.len() <= u32::MAX,
    ensures
        ({
            let r = record_bytes(seq, op, key, value);
            &&& r.len() == 21 + key.len() + value.len()
            &&& spec_u32_from_le_bytes(r.subrange(0, 4)) == crc32_of(r.skip(4))
            &&& spec_u64_from_le_bytes(r.subrange(4, 12)) == seq
            &&& r[12] == op
            &&& spec_u32_from_le_bytes(r.subrange(13, 17)) == key.len()
            &&& spec_u32_from_le_bytes(r.subrange(17, 21)) == value.len()
            &&& r.subrange(21, 21 + key.len() as int) == key
            &&& r.skip(21 + key.len() as int) == value
        }),
{
    lemma_auto_spec_u32_to_from_le_bytes();
    lemma_auto_spec_u64_to_from_le_bytes();
    let body = record_body(seq, op, key, value);
    let r = record_bytes(seq, op, key, value);
    let kl = key.len() as int;
    assert(r.subrange(0, 4) =~= spec_u32_to_le_bytes(crc32_of(body)));
    assert(r.skip(4) =~= body);
    assert(r.subrange(4, 12) =~= spec_u64_to_le_bytes(seq));
    assert(r.subrange(13, 17) =~= spec_u32_to_le_bytes(key.len() as u32));
    assert(r.subrange(17, 21) =~= spec_u32_to_le_bytes(value.len() as u32));
    assert(r.subrange(21, 21 + kl) =~= key);
    assert(r.skip(21 + kl) =~= value);
}

/// Builds a record's body.
pub fn build_record_body(seq: u64, op: u8, key: &[u8], value: &[u8]) -> (body: Vec<u8>)
    ensures
        body@ == record_body(seq, op, key@, value@),
{
    let mut body: Vec<u8> = Vec::new();
    let mut seq_bytes = u64_to_le_bytes(seq);
    body.append(&mut seq_bytes);
    body.push(op);
    let mut klen_bytes = u32_to_le_bytes(key.len() as u32);
    body.append(&mut klen_bytes);
    let mut vlen_bytes = u32_to_le_bytes(value.len() as u32);
    body.append(&mut vlen_bytes);
    let mut key_bytes = slice_to_vec(key);
    body.append(&mut key_bytes);
    let mut value_bytes = slice_to_vec(value);
    body.append(&mut value_bytes);
    body
}

/// Builds a whole record, checksum first.
pub fn encode_record(seq: u64, op: u8, key: &[u8], value: &[u8]) -> (rec: Vec<u8>)
    ensures
        rec@ == record_bytes(seq, op, key@, value@),
        rec@.len() == HEADER_LEN + key@.len() + value@.len(),
{
    let mut body = build_record_body(seq, op, key, value);
    proof {
        lemma_auto_spec_u32_to_from_le_bytes();
        lemma_auto_spec_u64_to_from_le_bytes();
    }
    let crc = crc32(body.as_slice());
    let mut rec = u32_to_le_bytes(crc);
    rec.append(&mut body);
    rec
}

pub open spec fn u32_at(b: Seq<u8>, at: int) -> u32 {
    spec_u32_from_le_bytes(b.subrange(at, at + 4))
}

pub open spec fn u64_at(b: Seq<u8>, at: int) -> u64 {
    spec_u64_from_le_bytes(b.subrange(at, at + 8))
}

/// A record as replay reads it.
pub struct ParsedRecord {
    pub seq: u64,
    pub op: u8,
    pub key: Seq<u8>,
    pub klen: nat,
    pub vlen: nat,
}

/// The record at `at`, if one is there whole, with a matching checksum and a
/// known operation.
pub open spec fn parse_record(b: Seq<u8>, at: int) -> Option<ParsedRecord> {
    if at < 0 || at + HEADER_LEN > b.len() {
        None
    } else {
        let klen = u32_at(b, at + 13) as nat;
        let vlen = u32_at(b, at + 17) as nat;
        let end = at + HEADER_LEN + klen + vlen;
        if end > b.len() {
            None
        } else if crc32_of(b.subrange(at + 4, end)) != u32_at(b, at) {
            None
        } else if b[at + 12] != OP_PUT && b[at + 12] != OP_DEL {
            None
        } else {
            Some(
                ParsedRecord {
                    seq: u64_at(b, at + 4),
                    op: b[at + 12],
                    key: b.subrange(at + HEADER_LEN, at + HEADER_LEN + klen),
                    klen,
                    vlen,
                },
            )
        }
    }
}

/// What replay has built so far: the live-key index, the next sequence
/// number, and where the next record starts.
pub struct ReplayState {
    pub index: Map<Seq<char>, ValuePos>,
    pub next_seq: u64,
    pub offset: nat,
}

pub open spec fn replay_start() -> ReplayState {
    ReplayState { index: Map::empty(), next_seq: 0, offset: 0 }
}

/// Applies one record read at `st.offset`.
pub open spec fn apply_record(st: ReplayState, r: ParsedRecord) -> ReplayState {
    let key = key_from_bytes(r.key);
    ReplayState {
        index: if r.op == OP_PUT {
            st.index.insert(
                key,
                ValuePos { offset: (st.offset + HEADER_LEN + r.klen) as u64, len: r.vlen as u32 },
            )
        } else {
            st.index.remove(key)
        },
        next_seq: if st.next_seq > r.seq {
            st.next_seq
        } else {
            (r.seq + 1) as u64
        },
        offset: st.offset + (HEADER_LEN as nat) + r.klen + r.vlen,
    }
}

/// Replays the records from `st.offset` on; `None` where a record carries the
/// largest sequence number, whose successor does not exist.
pub open spec fn replay_from(b: Seq<u8>, st: ReplayState) -> Option<ReplayState>
    decreases b.len() - st.offset,
{
    if st.offset > b.len() {
        Some(st)
    } else {
        match parse_record(b, st.offset as int) {
            None => Some(st),
            Some(r) => if r.seq == u64::MAX {
                None
            } else {
                replay_from(b, apply_record(st, r))
            },
        }
    }
}

/// Replays a whole log from its first byte.
pub open spec fn replay_log(b: Seq<u8>) -> Option<ReplayState> {
    replay_from(b, replay_start())
}

/// A record's header fields, as read from the log.
pub struct RecordHeader {
    pub seq: u64,
    pub op: u8,
    pub klen: usize,
    pub vlen: usize,
}

/// Reads the record at `at`, as `parse_record` describes it.
pub fn parse_record_at(b: &[u8], at: usize) -> (r: Option<RecordHeader>)
    requires
        at <= b@.len(),
    ensures
        match parse_record(b@, at as int) {
            None => r is None,
            Some(p) => r matches Some(h) && h.seq == p.seq && h.op == p.op && h.klen == p.klen
                && h.vlen == p.vlen,
        },
{
    if b.len() - at < 21 {
        return None;
    }
    let crc = u32_from_le_bytes(slice_subrange(b, at, at + 4));
    let seq = u64_from_le_bytes(slice_subrange(b, at + 4, at + 12));
    let op = b[at + 12];
    let klen = u32_from_le_bytes(slice_subrange(b, at + 13, at + 17)) as usize;
    let vlen = u32_from_le_bytes(slice_subrange(b, at + 17, at + 21)) as usize;
    let room = b.len() - at - 21;
    if klen > room || vlen > room - klen {
        return None;
    }
    let end = at + 21 + klen + vlen;
    if crc32(slice_subrange(b, at + 4, end)) != crc {
        return None;
    }
    if op != OP_PUT && op != OP_DEL {
        return None;
    }
    Some(RecordHeader { seq, op, klen, vlen })
}

/// Reads a record's key.
pub fn record_key(b: &[u8], at: usize, h: &RecordHeader) -> (k: String)
    requires
        parse_record(b@, at as int) matches Some(p) && h.klen == p.klen,
    ensures
        parse_record(b@, at as int) matches Some(p) && k@ == key_from_bytes(p.key),
{
    let n = b.len();
    proof {
        let p = parse_record(b@, at as int)->Some_0;
        assert(at + 21 + p.klen <= n);
    }
    let kb = slice_subrange(b, at + 21, at + 21 + h.klen);
    string_from_utf8_lossy(kb)
}

/// Reading a record does not look past its end.
pub proof fn lemma_parse_extend(b: Seq<u8>, at: int, x: Seq<u8>)
    requires
        parse_record(b, at) is Some,
    ensures
        parse_record(b + x, at) == parse_record(b, at),
{
    let c = b + x;
    let klen = u32_at(b, at + 13) as nat;
    let vlen = u32_at(b, at + 17) as nat;
    let end = at + HEADER_LEN + klen + vlen;
    assert(c.subrange(at + 13, at + 17) =~= b.subrange(at + 13, at + 17));
    assert(c.subrange(at + 17, at + 21) =~= b.subrange(at + 17, at + 21));
    assert(c.subrange(at, at + 4) =~= b.subrange(at, at + 4));
    assert(c.subrange(at + 4, at + 12) =~= b.subrange(at + 4, at + 12));
    assert(c.subrange(at + 4, end) =~= b.subrange(at + 4, end));
    assert(c.subrange(at + HEADER_LEN, at + HEADER_LEN + klen) =~= b.subrange(
        at + HEADER_LEN,
        at + HEADER_LEN + klen,
    ));
    assert(c[at + 12] == b[at + 12]);
}

/// Reading a record does not look past its end: cutting the log anywhere
/// after the record leaves it readable, and the same.
pub proof fn lemma_parse_truncate(b: Seq<u8>, at: int, n: int)
    requires
        parse_record(b, at) matches Some(r) && at + HEADER_LEN + r.klen + r.vlen <= n,
        n <= b.len(),
    ensures
        parse_record(b.take(n), at) == parse_record(b, at),
{
    let c = b.take(n);
    let klen = u32_at(b, at + 13) as nat;
    let vlen = u32_at(b, at + 17) as nat;
    let end = at + HEADER_LEN + klen + vlen;
    assert(c.subrange(at + 13, at + 17) =~= b.subrange(at + 13, at + 17));
    assert(c.subrange(at + 17, at + 21) =~= b.subrange(at + 17, at + 21));
    assert(c.subrange(at, at + 4) =~= b.subrange(at, at + 4));
    assert(c.subrange(at + 4, at + 12) =~= b.subrange(at + 4, at + 12));
    assert(c.subrange(at + 4, end) =~= b.subrange(at + 4, end));
    assert(c.subrange(at + HEADER_LEN, at + HEADER_LEN + klen) =~= b.subrange(
        at + HEADER_LEN,
        at + HEADER_LEN + klen,
    ));
    assert(c[at + 12] == b[at + 12]);
}

/// Replay only moves forward, stays inside the log, and reads nothing past
/// where it stops: the log cut at that point replays to the same state.
pub proof fn lemma_replay_truncate(b: Seq<u8>, st: ReplayState, f: ReplayState)
    requires
        replay_from(b, st) == Some(f),
        st.offset <= b.len(),
    ensures
        st.offset <= f.offset <= b.len(),
        replay_from(b.take(f.offset as int), st) == Some(f),
    decreases b.len() - st.offset,
{
    match parse_record(b, st.offset as int) {
        None => {
            assert(f == st);
            assert(parse_record(b.take(st.offset as int), st.offset as int) is None);
        },
        Some(r) => {
            let g = apply_record(st, r);
            lemma_replay_truncate(b, g, f);
            lemma_parse_truncate(b, st.offset as int, f.offset as int);
            assert(replay_from(b.take(f.offset as int), st) == replay_from(
                b.take(f.offset as int),
                g,
            ));
        },
    }
}

/// Replaying a log that ends cleanly, then more bytes, is replaying the
/// more bytes from where the log ended.
pub proof fn lemma_replay_extend(b: Seq<u8>, st: ReplayState, f: ReplayState, x: Seq<u8>)
    requires
        replay_from(b, st) == Some(f),
        f.offset == b.len(),
        st.offset <= b.len(),
    ensures
        replay_from(b + x, st) == replay_from(b + x, f),
    decreases b.len() - st.offset,
{
    match parse_record(b, st.offset as int) {
        None => {},
        Some(r) => {
            lemma_parse_extend(b, st.offset as int, x);
            lemma_replay_extend(b, apply_record(st, r), f, x);
        },
    }
}

/// The record that `record_bytes` makes is read back as it was written.
pub proof fn lemma_parse_record_bytes(
    b: Seq<u8>,
    seq: u64,
    op: u8,
    key: Seq<u8>,
    value: Seq<u8>,
)
    requires
        op == OP_PUT || op == OP_DEL,
        key.len() <= u32::MAX,
        value.len() <= u32::MAX,
    ensures
        parse_record(b + record_bytes(seq, op, key, value), b.len() as int) == Some(
            ParsedRecord { seq, op, key, klen: key.len(), vlen: value.len() },
        ),
        parse_record(
            b + record_bytes(seq, op, key, value),
            b.len() + record_bytes(seq, op, key, value).len() as int,
        ) is None,
        record_bytes(seq, op, key, value).len() == HEADER_LEN + key.len() + value.len(),
{
    lemma_auto_spec_u32_to_from_le_bytes();
    lemma_auto_spec_u64_to_from_le_bytes();
    let body = record_body(seq, op, key, value);
    let rec = record_bytes(seq, op, key, value);
    let c = b + rec;
    let at = b.len() as int;
    let crc_b = spec_u32_to_le_bytes(crc32_of(body));
    let seq_b = spec_u64_to_le_bytes(seq);
    let kl_b = spec_u32_to_le_bytes(key.len() as u32);
    let vl_b = spec_u32_to_le_bytes(value.len() as u32);
    assert(body.len() == 17 + key.len() + value.len());
    assert(c.subrange(at, at + 4) =~= crc_b);
    assert(c.subrange(at + 4, at + 12) =~= seq_b);
    assert(c[at + 12] == op);
    assert(c.subrange(at + 13, at + 17) =~= kl_b);
    assert(c.subrange(at + 17, at + 21) =~= vl_b);
    assert(u32_at(c, at + 13) == key.len() as u32);
    assert(u32_at(c, at + 17) == value.len() as u32);
    let end = at + HEADER_LEN + key.len() + value.len();
    assert(c.subrange(at + 4, end) =~= body);
    assert(c.subrange(at + HEADER_LEN, at + HEADER_LEN + key.len()) =~= key);
}

/// Replaying a log that ends cleanly, with one more record appended, applies
/// that record.
pub proof fn lemma_replay_append(
    b: Seq<u8>,
    f: ReplayState,
    seq: u64,
    op: u8,
    key: Seq<u8>,
    value: Seq<u8>,
)
    requires
        replay_log(b) == Some(f),
        f.offset == b.len(),
        op == OP_PUT || op == OP_DEL,
        key.len() <= u32::MAX,
        value.len() <= u32::MAX,
        seq < u64::MAX,
    ensures
        replay_log(b + record_bytes(seq, op, key, value)) == Some(
            apply_record(f, ParsedRecord { seq, op, key, klen: key.len(), vlen: value.len() }),
        ),
{
    let rec = record_bytes(seq, op, key, value);
    lemma_replay_extend(b, replay_start(), f, rec);
    lemma_parse_record_bytes(b, seq, op, key, value);
    let r = ParsedRecord { seq, op, key, klen: key.len(), vlen: value.len() };
    let g = apply_record(f, r);
    assert(g.offset == (b + rec).len());
    assert(replay_from(b + rec, g) == Some(g));
    assert(replay_from(b + rec, f) == replay_from(b + rec, g));
}

/// The key of a record written for a string key reads back as that string.
pub proof fn lemma_key_round_trip(k: Seq<char>)
    ensures
        key_from_bytes(encode_utf8(k)) == k,
{
    encode_utf8_valid_utf8(k);
    encode_utf8_decode_utf8(k);
}

/// A record's value sits right after its key.
pub proof fn lemma_record_value(b: Seq<u8>, seq: u64, op: u8, key: Seq<u8>, value: Seq<u8>)
    ensures
        record_bytes(seq, op, key, value).len() == HEADER_LEN + key.len() + value.len(),
        (b + record_bytes(seq, op, key, value)).subrange(
            b.len() + HEADER_LEN + key.len(),
            b.len() + HEADER_LEN + key.len() + value.len(),
        ) == value,
        (b + record_bytes(seq, op, key, value)).subrange(0, b.len() as int) == b,
{
    lemma_auto_spec_u32_to_from_le_bytes();
    lemma_auto_spec_u64_to_from_le_bytes();
    let c = b + record_bytes(seq, op, key, value);
    let s = b.len() + HEADER_LEN + key.len();
    assert(c.subrange(s, s + value.len()) =~= value);
    assert(c.subrange(0, b.len() as int) =~= b);
}

} // verus!
