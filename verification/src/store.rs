//! The volume's storage engine: an append-only log of records and an
//! in-memory index from each live key to where its latest value sits in the
//! log.
//!
//! The engine decides what bytes go to the data file and keeps the index;
//! the caller moves the bytes. A write is two steps: `put` or `delete`
//! reserves a sequence number and hands out the record to append, and
//! `commit` applies it once the append succeeded. The log that the engine
//! believes the data file holds is kept as ghost state.
use crate::bytes_order::{bytes_lt, has_prefix};
use crate::keyed::{
    key_bytes, keys_of, lemma_keys_of_sorted, strings_sorted, to_map, KeyedVec,
};
use crate::record::{
    apply_record, encode_record, key_from_bytes, lemma_key_round_trip, lemma_record_value,
    lemma_replay_append, lemma_replay_truncate,
    parse_record, parse_record_at, record_bytes, record_key, replay_from, replay_log,
    replay_start, ParsedRecord, ReplayState, ValuePos, HEADER_LEN, OP_DEL, OP_PUT,
};
use crate::ring::strings_view;
use vstd::prelude::*;
use vstd::string::StringSliceAdditionalSpecFns;

verus! {

/// The engine's state, as plain values.
pub struct StoreModel {
    pub index: Map<Seq<char>, ValuePos>,
    pub write_offset: u64,
    pub next_seq: u64,
    pub puts: u64,
    pub gets: u64,
    pub deletes: u64,
    /// What the data file holds.
    pub log: Seq<u8>,
}

/// A write that has a sequence number and a record, not yet applied.
pub struct WriteModel {
    pub seq: u64,
    pub op: u8,
    pub key: Seq<char>,
    pub value: Seq<u8>,
}

pub open spec fn write_record(w: WriteModel) -> Seq<u8> {
    record_bytes(w.seq, w.op, key_bytes(w.key), w.value)
}

pub open spec fn wrapping_inc(x: u64) -> u64 {
    if x == u64::MAX {
        0
    } else {
        (x + 1) as u64
    }
}

/// Every indexed value lies inside the log, and the write offset does not
/// pass the log's end.
pub open spec fn model_wf(m: StoreModel) -> bool {
    &&& m.write_offset <= m.log.len()
    &&& forall|k: Seq<char>| #[trigger]
        m.index.contains_key(k) ==> m.index[k].offset + m.index[k].len <= m.log.len()
}

/// The bytes of the log at a position.
pub open spec fn read_at(log: Seq<u8>, p: ValuePos) -> Seq<u8> {
    log.subrange(p.offset as int, p.offset + p.len)
}

/// What a read of each live key gives back from the log.
pub open spec fn stored_values(m: StoreModel) -> Map<Seq<char>, Seq<u8>> {
    Map::new(|k: Seq<char>| m.index.contains_key(k), |k: Seq<char>| read_at(m.log, m.index[k]))
}

/// The state after a write's record has been appended and applied.
pub open spec fn after_commit(m: StoreModel, w: WriteModel) -> StoreModel {
    let rec = write_record(w);
    let klen = key_bytes(w.key).len();
    StoreModel {
        index: if w.op == OP_PUT {
            m.index.insert(
                w.key,
                ValuePos {
                    offset: (m.write_offset + HEADER_LEN + klen) as u64,
                    len: w.value.len() as u32,
                },
            )
        } else {
            m.index.remove(w.key)
        },
        write_offset: (m.write_offset + rec.len()) as u64,
        puts: if w.op == OP_PUT {
            wrapping_inc(m.puts)
        } else {
            m.puts
        },
        deletes: if w.op == OP_PUT {
            m.deletes
        } else {
            wrapping_inc(m.deletes)
        },
        log: m.log + rec,
        ..m
    }
}

/// Reopening the log gives back this state: the log ends where the engine
/// writes next, and replay reads it to the end, finds the same live keys at
/// the same positions, and the same next sequence number.
pub open spec fn recoverable(m: StoreModel) -> bool {
    &&& m.write_offset == m.log.len()
    &&& replay_log(m.log) == Some(
        ReplayState { index: m.index, next_seq: m.next_seq, offset: m.log.len() },
    )
}

/// The model of an empty store.
pub open spec fn empty_model() -> StoreModel {
    StoreModel {
        index: Map::empty(),
        write_offset: 0,
        next_seq: 0,
        puts: 0,
        gets: 0,
        deletes: 0,
        log: Seq::empty(),
    }
}

/// Whether a key is kept by a prefix filter (byte prefix, as
/// `str::starts_with`).
pub open spec fn matches_prefix(k: Seq<char>, prefix: Option<Seq<char>>) -> bool {
    match prefix {
        None => true,
        Some(p) => key_bytes(p).is_prefix_of(key_bytes(k)),
    }
}

pub open spec fn filter_prefix(s: Seq<Seq<char>>, prefix: Option<Seq<char>>) -> Seq<Seq<char>>
    decreases s.len(),
{
    if s.len() == 0 {
        Seq::empty()
    } else if matches_prefix(s.last(), prefix) {
        filter_prefix(s.drop_last(), prefix).push(s.last())
    } else {
        filter_prefix(s.drop_last(), prefix)
    }
}

/// The prefix filter keeps exactly the keys that begin, byte for byte,
/// with the prefix, in their order: every kept key is one of the list's
/// and carries the prefix, every key of the list that carries it is kept,
/// and a sorted list stays sorted.
pub proof fn lemma_filter_prefix(s: Seq<Seq<char>>, prefix: Option<Seq<char>>)
    requires
        strings_sorted(s),
    ensures
        forall|i: int|
            0 <= i < filter_prefix(s, prefix).len() ==> s.contains(
                #[trigger] filter_prefix(s, prefix)[i],
            ) && (prefix matches Some(p) ==> key_bytes(p).is_prefix_of(
                key_bytes(filter_prefix(s, prefix)[i]),
            )),
        forall|j: int|
            0 <= j < s.len() && (prefix matches Some(p) ==> key_bytes(p).is_prefix_of(
                key_bytes(#[trigger] s[j]),
            )) ==> filter_prefix(s, prefix).contains(s[j]),
        strings_sorted(filter_prefix(s, prefix)),
    decreases s.len(),
{
    if s.len() > 0 {
        let t = s.drop_last();
        let x = s.last();
        assert forall|i: int, j: int| 0 <= i < j < t.len() implies #[trigger] bytes_lt(
            key_bytes(t[i]),
            key_bytes(t[j]),
        ) by {
            assert(t[i] == s[i]);
            assert(t[j] == s[j]);
        }
        lemma_filter_prefix(t, prefix);
        let f0 = filter_prefix(t, prefix);
        let f = filter_prefix(s, prefix);
        assert forall|i: int| 0 <= i < f.len() implies s.contains(#[trigger] f[i]) && (
        prefix matches Some(p) ==> key_bytes(p).is_prefix_of(key_bytes(f[i]))) by {
            if i < f0.len() {
                assert(f[i] == f0[i]);
                let a = choose|a: int| 0 <= a < t.len() && t[a] == f0[i];
                assert(s[a] == t[a]);
            } else {
                assert(f[i] == x);
                assert(s[s.len() - 1] == x);
            }
        }
        assert forall|j: int|
            0 <= j < s.len() && (prefix matches Some(p) ==> key_bytes(p).is_prefix_of(
                key_bytes(#[trigger] s[j]),
            )) implies f.contains(s[j]) by {
            if j < t.len() {
                assert(t[j] == s[j]);
                let a = choose|a: int| 0 <= a < f0.len() && f0[a] == t[j];
                assert(f[a] == f0[a]);
            } else {
                assert(s[j] == x);
                assert(f[f.len() - 1] == x);
            }
        }
        assert forall|i: int, j: int| 0 <= i < j < f.len() implies #[trigger] bytes_lt(
            key_bytes(f[i]),
            key_bytes(f[j]),
        ) by {
            assert(f[i] == f0[i]);
            if j < f0.len() {
                assert(f[j] == f0[j]);
            } else {
                let a = choose|a: int| 0 <= a < t.len() && t[a] == f0[i];
                assert(s[a] == t[a]);
                assert(f[j] == x);
                assert(bytes_lt(key_bytes(s[a]), key_bytes(s[s.len() - 1])));
            }
        }
    }
}

/// The first `limit` elements, or all when there are no more.
pub open spec fn limited(s: Seq<Seq<char>>, limit: Option<usize>) -> Seq<Seq<char>> {
    match limit {
        None => s,
        Some(l) => if l < s.len() {
            s.take(l as int)
        } else {
            s
        },
    }
}

pub open spec fn opt_str_view(p: Option<&str>) -> Option<Seq<char>> {
    match p {
        None => None,
        Some(s) => Some(s@),
    }
}

/// The log that compaction writes: one PUT per key, in key order, with
/// sequence numbers from 0.
pub open spec fn compacted_log(keys: Seq<Seq<char>>, values: Seq<Seq<u8>>, n: nat) -> Seq<u8>
    decreases n,
{
    if n == 0 {
        Seq::empty()
    } else {
        compacted_log(keys, values, (n - 1) as nat) + record_bytes(
            (n - 1) as u64,
            OP_PUT,
            key_bytes(keys[n - 1]),
            values[n - 1],
        )
    }
}

/// The index that goes with `compacted_log`.
pub open spec fn compacted_index(keys: Seq<Seq<char>>, values: Seq<Seq<u8>>, n: nat) -> Map<
    Seq<char>,
    ValuePos,
>
    decreases n,
{
    if n == 0 {
        Map::empty()
    } else {
        compacted_index(keys, values, (n - 1) as nat).insert(
            keys[n - 1],
            ValuePos {
                offset: (compacted_log(keys, values, (n - 1) as nat).len() + HEADER_LEN
                    + key_bytes(keys[n - 1]).len()) as u64,
                len: values[n - 1].len() as u32,
            },
        )
    }
}

/// A write waiting to be appended to the data file.
pub struct PendingWrite {
    seq: u64,
    op: u8,
    key: String,
    klen: usize,
    record: Vec<u8>,
    value: Ghost<Seq<u8>>,
}

impl View for PendingWrite {
    type V = WriteModel;

    closed spec fn view(&self) -> WriteModel {
        WriteModel { seq: self.seq, op: self.op, key: self.key@, value: self.value@ }
    }
}

impl PendingWrite {
    pub closed spec fn wf(&self) -> bool {
        &&& self.record@ == write_record(self@)
        &&& self.op == OP_PUT || self.op == OP_DEL
        &&& self.op == OP_DEL ==> self.value@ == Seq::<u8>::empty()
        &&& self.klen == key_bytes(self.key@).len()
    }

    /// The bytes to append to the data file.
    pub fn record(&self) -> (r: &[u8])
        requires
            self.wf(),
        ensures
            r@ == write_record(self@),
    {
        self.record.as_slice()
    }

    pub fn seq(&self) -> (r: u64)
        ensures
            r == self@.seq,
    {
        self.seq
    }
}

/// Counters and sizes of a store.
pub struct StoreStats {
    pub keys: usize,
    pub write_offset: u64,
    pub data_file_bytes: u64,
    pub next_seq: u64,
    pub puts: u64,
    pub gets: u64,
    pub deletes: u64,
}

/// The storage engine.
pub struct Store {
    index: KeyedVec<ValuePos>,
    write_offset: u64,
    next_seq: u64,
    puts: u64,
    gets: u64,
    deletes: u64,
    log: Ghost<Seq<u8>>,
}

impl View for Store {
    type V = StoreModel;

    closed spec fn view(&self) -> StoreModel {
        StoreModel {
            index: self.index.map(),
            write_offset: self.write_offset,
            next_seq: self.next_seq,
            puts: self.puts,
            gets: self.gets,
            deletes: self.deletes,
            log: self.log@,
        }
    }
}

fn inc_wrapping(x: u64) -> (r: u64)
    ensures
        r == wrapping_inc(x),
{
    if x == u64::MAX {
        0
    } else {
        x + 1
    }
}

impl Store {
    pub closed spec fn wf(&self) -> bool {
        &&& self.index.wf()
        &&& model_wf(self@)
    }

    /// The live keys in key order.
    pub closed spec fn key_list(&self) -> Seq<Seq<char>> {
        keys_of(self.index@)
    }

    /// A well-formed store's model is well-formed: every indexed value lies
    /// inside the log.
    pub proof fn lemma_wf(&self)
        requires
            self.wf(),
        ensures
            model_wf(self@),
    {
    }

    /// The key list is sorted, has no repeats, and holds exactly the live keys.
    pub proof fn lemma_key_list(&self)
        requires
            self.wf(),
        ensures
            strings_sorted(self.key_list()),
            self.key_list().no_duplicates(),
            self.key_list().to_set() == self@.index.dom(),
            self.key_list().len() == self@.index.len(),
    {
        lemma_keys_of_sorted(self.index@);
    }

    /// An empty store.
    pub fn new() -> (s: Self)
        ensures
            s.wf(),
            s@ == empty_model(),
            recoverable(s@),
    {
        let s = Store {
            index: KeyedVec::new(),
            write_offset: 0,
            next_seq: 0,
            puts: 0,
            gets: 0,
            deletes: 0,
            log: Ghost(Seq::empty()),
        };
        proof {
            assert(replay_log(Seq::<u8>::empty()) == Some(replay_start()));
            assert(s@ =~= empty_model());
        }
        s
    }

    /// Rebuilds a store from the bytes of a data file. The store's log is
    /// the part replay read, up to the first record that is cut short or
    /// damaged; the caller drops the rest from the file before appending.
    /// `None` where a record carries the largest sequence number, so that
    /// the next one overflows.
    pub fn replay(bytes: &[u8]) -> (r: Option<Store>)
        ensures
            match r {
                None => replay_log(bytes@) is None,
                Some(s) => {
                    &&& s.wf()
                    &&& replay_log(bytes@) == Some(
                        ReplayState {
                            index: s@.index,
                            next_seq: s@.next_seq,
                            offset: s@.write_offset as nat,
                        },
                    )
                    &&& s@.write_offset <= bytes@.len()
                    &&& s@.log == bytes@.take(s@.write_offset as int)
                    &&& s@.puts == 0 && s@.gets == 0 && s@.deletes == 0
                    &&& recoverable(s@)
                },
            },
    {
        let mut index: KeyedVec<ValuePos> = KeyedVec::new();
        let mut next_seq: u64 = 0;
        let mut offset: usize = 0;
        loop
            invariant
                index.wf(),
                offset <= bytes@.len(),
                forall|k: Seq<char>| #[trigger]
                    index.map().contains_key(k) ==> index.map()[k].offset + index.map()[k].len
                        <= offset,
                replay_from(
                    bytes@,
                    ReplayState { index: index.map(), next_seq, offset: offset as nat },
                ) == replay_log(bytes@),
            decreases bytes@.len() - offset,
        {
            let ghost st = ReplayState { index: index.map(), next_seq, offset: offset as nat };
            match parse_record_at(bytes, offset) {
                None => {
                    proof {
                        assert(replay_from(bytes@, st) == Some(st));
                        lemma_replay_truncate(bytes@, replay_start(), st);
                    }
                    let s = Store {
                        index,
                        write_offset: offset as u64,
                        next_seq,
                        puts: 0,
                        gets: 0,
                        deletes: 0,
                        log: Ghost(bytes@.take(offset as int)),
                    };
                    return Some(s);
                },
                Some(h) => {
                    let ghost p = parse_record(bytes@, offset as int)->Some_0;
                    if h.seq == u64::MAX {
                        return None;
                    }
                    let key = record_key(bytes, offset, &h);
                    let blen = bytes.len();
                    assert(offset + 21 + h.klen + h.vlen <= blen);
                    let end = offset + 21 + h.klen + h.vlen;
                    if h.op == OP_PUT {
                        let pos = ValuePos { offset: (offset + 21 + h.klen) as u64, len: h.vlen as u32 };
                        index.insert(key, pos);
                    } else {
                        index.remove(key.as_str());
                    }
                    if next_seq <= h.seq {
                        next_seq = h.seq + 1;
                    }
                    proof {
                        let st2 = apply_record(st, p);
                        assert(index.map() =~= st2.index);
                        assert(replay_from(bytes@, st) == replay_from(bytes@, st2));
                    }
                    offset = end;
                },
            }
        }
    }

    /// Reserves a sequence number for a PUT and returns its record.
    pub fn put(&mut self, key: &str, value: &[u8]) -> (w: PendingWrite)
        requires
            old(self).wf(),
            old(self)@.next_seq < u64::MAX,
        ensures
            final(self).wf(),
            final(self)@ == (StoreModel { next_seq: (old(self)@.next_seq + 1) as u64, ..old(self)@ }),
            w.wf(),
            w@ == (WriteModel { seq: old(self)@.next_seq, op: OP_PUT, key: key@, value: value@ }),
    {
        let seq = self.next_seq;
        self.next_seq = self.next_seq + 1;
        let kb = key.as_bytes();
        let record = encode_record(seq, OP_PUT, kb, value);
        PendingWrite {
            seq,
            op: OP_PUT,
            key: key.to_owned(),
            klen: kb.len(),
            record,
            value: Ghost(value@),
        }
    }

    /// Reserves a sequence number for a DELETE of a live key and returns its
    /// record; `None`, with nothing changed, when the key is not live.
    pub fn delete(&mut self, key: &str) -> (w: Option<PendingWrite>)
        requires
            old(self).wf(),
            old(self)@.index.contains_key(key@) ==> old(self)@.next_seq < u64::MAX,
        ensures
            final(self).wf(),
            match w {
                None => !old(self)@.index.contains_key(key@) && final(self)@ == old(self)@,
                Some(w) => {
                    &&& old(self)@.index.contains_key(key@)
                    &&& final(self)@ == (StoreModel {
                        next_seq: (old(self)@.next_seq + 1) as u64,
                        ..old(self)@
                    })
                    &&& w.wf()
                    &&& w@ == (WriteModel {
                        seq: old(self)@.next_seq,
                        op: OP_DEL,
                        key: key@,
                        value: Seq::empty(),
                    })
                },
            },
    {
        if !self.index.contains_key(key) {
            return None;
        }
        let seq = self.next_seq;
        self.next_seq = self.next_seq + 1;
        let kb = key.as_bytes();
        let empty: [u8; 0] = [];
        let record = encode_record(seq, OP_DEL, kb, &empty);
        proof {
            assert(empty@ =~= Seq::<u8>::empty());
        }
        Some(
            PendingWrite {
                seq,
                op: OP_DEL,
                key: key.to_owned(),
                klen: kb.len(),
                record,
                value: Ghost(Seq::empty()),
            },
        )
    }

    /// Applies a write whose record has been appended to the data file.
    pub fn commit(&mut self, w: PendingWrite)
        requires
            old(self).wf(),
            w.wf(),
            old(self)@.write_offset + write_record(w@).len() <= u64::MAX,
        ensures
            final(self).wf(),
            final(self)@ == after_commit(old(self)@, w@),
    {
        let ghost m0 = self@;
        let ghost wm = w@;
        let rec_len = w.record.len();
        proof {
            assert(w.record@.len() == HEADER_LEN + w.klen + w.value@.len()) by {
                vstd::bytes::lemma_auto_spec_u32_to_from_le_bytes();
                vstd::bytes::lemma_auto_spec_u64_to_from_le_bytes();
            }
        }
        if w.op == OP_PUT {
            let pos = ValuePos {
                offset: self.write_offset + 21 + w.klen as u64,
                len: (rec_len - 21 - w.klen) as u32,
            };
            self.index.insert(w.key, pos);
            self.puts = inc_wrapping(self.puts);
        } else {
            self.index.remove(w.key.as_str());
            self.deletes = inc_wrapping(self.deletes);
        }
        self.write_offset = self.write_offset + rec_len as u64;
        self.log = Ghost(self.log@ + write_record(wm));
        proof {
            assert(self@ =~= after_commit(m0, wm));
        }
    }

    /// Looks up where a key's value sits, counting the read.
    pub fn get(&mut self, key: &str) -> (r: Option<ValuePos>)
        requires
            old(self).wf(),
        ensures
            final(self).wf(),
            final(self)@ == (StoreModel { gets: wrapping_inc(old(self)@.gets), ..old(self)@ }),
            match r {
                Some(p) => {
                    &&& old(self)@.index.contains_key(key@)
                    &&& p == old(self)@.index[key@]
                    &&& read_at(old(self)@.log, p) == stored_values(old(self)@)[key@]
                },
                None => !old(self)@.index.contains_key(key@),
            },
    {
        self.gets = inc_wrapping(self.gets);
        match self.index.get(key) {
            Some(p) => Some(*p),
            None => None,
        }
    }

    /// Where a key's value sits, without counting a read.
    pub fn locate(&self, key: &str) -> (r: Option<ValuePos>)
        requires
            self.wf(),
        ensures
            match r {
                Some(p) => self@.index.contains_key(key@) && p == self@.index[key@],
                None => !self@.index.contains_key(key@),
            },
    {
        match self.index.get(key) {
            Some(p) => Some(*p),
            None => None,
        }
    }

    pub fn contains_key(&self, key: &str) -> (r: bool)
        requires
            self.wf(),
        ensures
            r == self@.index.contains_key(key@),
    {
        self.index.contains_key(key)
    }

    /// The number of live keys.
    pub fn len(&self) -> (n: usize)
        requires
            self.wf(),
        ensures
            n == self@.index.len(),
    {
        proof {
            lemma_keys_of_sorted(self.index@);
        }
        self.index.len()
    }

    pub fn is_empty(&self) -> (r: bool)
        requires
            self.wf(),
        ensures
            r == (self@.index.len() == 0),
    {
        self.len() == 0
    }

    pub fn write_offset(&self) -> (r: u64)
        ensures
            r == self@.write_offset,
    {
        self.write_offset
    }

    pub fn next_seq(&self) -> (r: u64)
        ensures
            r == self@.next_seq,
    {
        self.next_seq
    }

    /// The live keys, sorted.
    pub fn keys(&self) -> (r: Vec<String>)
        requires
            self.wf(),
        ensures
            strings_view(r@) == self.key_list(),
            r@.len() == self@.index.len(),
            forall|i: int| 0 <= i < r@.len() ==> self@.index.contains_key(#[trigger] r@[i]@),
            forall|i: int, j: int|
                0 <= i < j < r@.len() ==> bytes_lt(
                    key_bytes((#[trigger] r@[i])@),
                    key_bytes((#[trigger] r@[j])@),
                ),
    {
        let r = self.keys_with_prefix(None, None);
        proof {
            lemma_filter_none(self.key_list());
            self.lemma_key_list();
            let v = strings_view(r@);
            assert forall|i: int| 0 <= i < r@.len() implies self@.index.contains_key(
                #[trigger] r@[i]@,
            ) by {
                assert(v[i] == r@[i]@);
                assert(v.to_set().contains(v[i]));
            }
        }
        r
    }

    /// The live keys that start with `prefix`, sorted, at most `limit` of them.
    pub fn keys_with_prefix(&self, prefix: Option<&str>, limit: Option<usize>) -> (r: Vec<String>)
        requires
            self.wf(),
        ensures
            strings_view(r@) == limited(
                filter_prefix(self.key_list(), opt_str_view(prefix)),
                limit,
            ),
            forall|i: int|
                0 <= i < r@.len() ==> self@.index.contains_key(#[trigger] r@[i]@) && (
                prefix matches Some(p) ==> key_bytes(p@).is_prefix_of(key_bytes(r@[i]@))),
            forall|i: int, j: int|
                0 <= i < j < r@.len() ==> bytes_lt(
                    key_bytes((#[trigger] r@[i])@),
                    key_bytes((#[trigger] r@[j])@),
                ),
            limit matches Some(l) ==> r@.len() <= l,
            forall|k: Seq<char>|
                #[trigger] self@.index.contains_key(k) && (prefix matches Some(p)
                    ==> key_bytes(p@).is_prefix_of(key_bytes(k))) && !strings_view(r@).contains(k)
                    ==> (limit matches Some(l) && r@.len() == l && forall|i: int|
                    0 <= i < r@.len() ==> bytes_lt(key_bytes(#[trigger] r@[i]@), key_bytes(k))),
    {
        proof {
            self.lemma_key_list();
            lemma_filter_prefix(self.key_list(), opt_str_view(prefix));
        }
        let n = self.index.len();
        let mut out: Vec<String> = Vec::new();
        let mut i: usize = 0;
        let ghost ks = self.key_list();
        while i < n
            invariant
                n == self.index@.len(),
                ks == self.key_list(),
                ks == keys_of(self.index@),
                i <= n,
                strings_view(out@) == filter_prefix(ks.take(i as int), opt_str_view(prefix)),
            decreases n - i,
        {
            let k = self.index.key_at(i);
            let keep = match prefix {
                None => true,
                Some(p) => has_prefix(k.as_str().as_bytes(), p.as_bytes()),
            };
            let ghost before = out@;
            if keep {
                out.push(k.clone());
            }
            proof {
                assert(ks[i as int] == k@);
                assert(ks.take(i + 1).drop_last() =~= ks.take(i as int));
                assert(ks.take(i + 1).last() == ks[i as int]);
                if keep {
                    assert(strings_view(out@) =~= strings_view(before).push(k@));
                }
            }
            i = i + 1;
        }
        proof {
            assert(ks.take(n as int) =~= ks);
        }
        match limit {
            None => {},
            Some(l) => {
                out.truncate(l);
            },
        }
        proof {
            let f = filter_prefix(ks, opt_str_view(prefix));
            match limit {
                None => {},
                Some(l) => {
                    if l < f.len() {
                        assert(strings_view(out@) =~= f.take(l as int));
                    }
                },
            }
            let v = strings_view(out@);
            assert(v.len() <= f.len());
            assert forall|i: int| 0 <= i < v.len() implies v[i] == f[i] by {
            }
            assert forall|i: int| 0 <= i < out@.len() implies self@.index.contains_key(
                #[trigger] out@[i]@,
            ) && (prefix matches Some(p) ==> key_bytes(p@).is_prefix_of(key_bytes(out@[i]@))) by {
                assert(v[i] == out@[i]@);
                assert(f[i] == v[i]);
                assert(ks.to_set().contains(f[i]));
            }
            assert forall|i: int, j: int| 0 <= i < j < out@.len() implies bytes_lt(
                key_bytes((#[trigger] out@[i])@),
                key_bytes((#[trigger] out@[j])@),
            ) by {
                assert(v[i] == out@[i]@);
                assert(v[j] == out@[j]@);
                assert(f[i] == v[i]);
                assert(f[j] == v[j]);
            }
            assert forall|k: Seq<char>|
                #[trigger] self@.index.contains_key(k) && (prefix matches Some(p)
                    ==> key_bytes(p@).is_prefix_of(key_bytes(k))) && !v.contains(k) implies (
            limit matches Some(l) && out@.len() == l && forall|i: int|
                0 <= i < out@.len() ==> bytes_lt(key_bytes(#[trigger] out@[i]@), key_bytes(k))) by {
                assert(ks.to_set().contains(k));
                let j = choose|j: int| 0 <= j < ks.len() && ks[j] == k;
                assert(opt_str_view(prefix) matches Some(p) ==> key_bytes(p).is_prefix_of(
                    key_bytes(ks[j]),
                ));
                assert(f.contains(ks[j]));
                let m = choose|m: int| 0 <= m < f.len() && f[m] == k;
                if m < v.len() {
                    assert(v[m] == k);
                }
                assert forall|i: int| 0 <= i < out@.len() implies bytes_lt(
                    key_bytes(#[trigger] out@[i]@),
                    key_bytes(k),
                ) by {
                    assert(v[i] == out@[i]@);
                    assert(f[i] == v[i]);
                }
            }
        }
        out
    }

    /// The store's counters, with the data file's size as the caller found it.
    pub fn stats(&self, data_file_bytes: u64) -> (r: StoreStats)
        requires
            self.wf(),
        ensures
            r.keys == self@.index.len(),
            r.write_offset == self@.write_offset,
            r.data_file_bytes == data_file_bytes,
            r.next_seq == self@.next_seq,
            r.puts == self@.puts,
            r.gets == self@.gets,
            r.deletes == self@.deletes,
    {
        StoreStats {
            keys: self.len(),
            write_offset: self.write_offset,
            data_file_bytes,
            next_seq: self.next_seq,
            puts: self.puts,
            gets: self.gets,
            deletes: self.deletes,
        }
    }
}


pub open spec fn values_view(v: Seq<Vec<u8>>) -> Seq<Seq<u8>> {
    v.map_values(|x: Vec<u8>| x@)
}

/// The model of the store that compaction builds from a store and the
/// values read for its keys, in key order.
pub open spec fn compacted_model(m: StoreModel, keys: Seq<Seq<char>>, values: Seq<Seq<u8>>) -> StoreModel {
    let n = keys.len();
    StoreModel {
        index: compacted_index(keys, values, n),
        write_offset: compacted_log(keys, values, n).len() as u64,
        next_seq: n as u64,
        log: compacted_log(keys, values, n),
        ..m
    }
}

impl Store {
    /// Compaction: the store that holds one record per live key, in key
    /// order, with the given values, and the bytes of its new data file.
    /// Counters are kept.
    pub fn compaction(&self, values: &Vec<Vec<u8>>) -> (r: (Store, Vec<u8>))
        requires
            self.wf(),
            values@.len() == self@.index.len(),
        ensures
            r.0.wf(),
            r.0@ == compacted_model(self@, self.key_list(), values_view(values@)),
            r.1@ == r.0@.log,
            r.0.key_list() == self.key_list(),
    {
        proof {
            lemma_keys_of_sorted(self.index@);
        }
        let n = self.index.len();
        let ghost keys = self.key_list();
        let ghost vals = values_view(values@);
        let mut new_index: KeyedVec<ValuePos> = KeyedVec::new();
        let mut new_log: Vec<u8> = Vec::new();
        let mut i: usize = 0;
        proof {
            assert(new_log@ =~= compacted_log(keys, vals, 0));
        }
        while i < n
            invariant
                n == self.index@.len(),
                n == values@.len(),
                keys == self.key_list(),
                keys == keys_of(self.index@),
                vals == values_view(values@),
                i <= n,
                new_index.wf(),
                new_log@ == compacted_log(keys, vals, i as nat),
                new_index.map() == compacted_index(keys, vals, i as nat),
                keys_of(new_index@) == keys.take(i as int),
                strings_sorted(keys),
                keys.len() == n,
                new_index@.len() == i,
                forall|k: Seq<char>| #[trigger]
                    new_index.map().contains_key(k) ==> new_index.map()[k].offset
                        + new_index.map()[k].len <= new_log@.len(),
            decreases n - i,
        {
            let key = self.index.key_at(i);
            let v = &values[i];
            let kb = key.as_str().as_bytes();
            let klen = kb.len();
            let mut rec = encode_record(i as u64, OP_PUT, kb, v.as_slice());
            let start = new_log.len();
            new_log.append(&mut rec);
            let total = new_log.len();
            assert(start + 21 + klen + v@.len() == total);
            let pos = ValuePos { offset: (start + 21 + klen) as u64, len: v.len() as u32 };
            proof {
                assert forall|j: int| 0 <= j < new_index@.len() implies bytes_lt(
                    key_bytes(#[trigger] new_index@[j].0),
                    key_bytes(key@),
                ) by {
                    assert(keys_of(new_index@)[j] == new_index@[j].0);
                    assert(keys.take(i as int)[j] == keys[j]);
                    assert(bytes_lt(key_bytes(keys[j]), key_bytes(keys[i as int])));
                }
            }
            let ghost before = new_index@;
            new_index.push_greatest(key.clone(), pos);
            proof {
                assert(keys_of(new_index@) =~= keys_of(before).push(key@));
                assert(keys.take(i + 1) =~= keys.take(i as int).push(keys[i as int]));
                assert(keys[i as int] == key@);
                assert(vals[i as int] == v@);
                assert(new_log@ =~= compacted_log(keys, vals, (i + 1) as nat));
                assert(new_index.map() == compacted_index(keys, vals, (i + 1) as nat));
            }
            i = i + 1;
        }
        let s = Store {
            index: new_index,
            write_offset: new_log.len() as u64,
            next_seq: n as u64,
            puts: self.puts,
            gets: self.gets,
            deletes: self.deletes,
            log: Ghost(new_log@),
        };
        proof {
            assert(keys.len() == n);
            assert(s@ =~= compacted_model(self@, keys, vals));
            assert(keys.take(n as int) =~= keys);
        }
        (s, new_log)
    }
}


/// Read after write: after a committed PUT the key reads back the value
/// written, after a committed DELETE the key is gone, and every other key
/// reads as before.
pub proof fn lemma_commit_values(m: StoreModel, w: WriteModel)
    requires
        model_wf(m),
        m.write_offset == m.log.len(),
        w.op == OP_PUT || w.op == OP_DEL,
        w.value.len() <= u32::MAX,
        m.write_offset + write_record(w).len() <= u64::MAX,
    ensures
        model_wf(after_commit(m, w)),
        stored_values(after_commit(m, w)) == if w.op == OP_PUT {
            stored_values(m).insert(w.key, w.value)
        } else {
            stored_values(m).remove(w.key)
        },
{
    let m2 = after_commit(m, w);
    let kb = key_bytes(w.key);
    lemma_record_value(m.log, w.seq, w.op, kb, w.value);
    let expect = if w.op == OP_PUT {
        stored_values(m).insert(w.key, w.value)
    } else {
        stored_values(m).remove(w.key)
    };
    assert forall|k: Seq<char>| #[trigger] m2.index.contains_key(k) implies m2.index[k].offset
        + m2.index[k].len <= m2.log.len() by {
        if !(w.op == OP_PUT && k == w.key) {
            assert(m.index.contains_key(k));
        }
    }
    assert forall|k: Seq<char>| #[trigger] stored_values(m2).contains_key(k) implies stored_values(
        m2,
    )[k] == expect[k] by {
        if w.op == OP_PUT && k == w.key {
        } else {
            assert(m.index.contains_key(k));
            let p = m.index[k];
            assert(m2.index[k] == p);
            assert(m2.log.subrange(p.offset as int, p.offset + p.len) =~= m.log.subrange(
                p.offset as int,
                p.offset + p.len,
            ));
        }
    }
    assert(stored_values(m2) =~= expect);
}

/// A write reserved on a recoverable store and then committed keeps it
/// recoverable: `m` is the store after `put` or `delete` took the sequence
/// number `w.seq`, and replaying the log after the append gives back the
/// index, the write offset and the next sequence number the store holds.
pub proof fn lemma_commit_recoverable(m: StoreModel, w: WriteModel)
    requires
        recoverable(StoreModel { next_seq: w.seq, ..m }),
        m.next_seq == w.seq + 1,
        w.op == OP_PUT || w.op == OP_DEL,
        key_bytes(w.key).len() <= u32::MAX,
        w.value.len() <= u32::MAX,
        m.write_offset + write_record(w).len() <= u64::MAX,
    ensures
        recoverable(after_commit(m, w)),
{
    let st = replay_log(m.log)->Some_0;
    let kb = key_bytes(w.key);
    lemma_replay_append(m.log, st, w.seq, w.op, kb, w.value);
    lemma_record_value(m.log, w.seq, w.op, kb, w.value);
    lemma_key_round_trip(w.key);
    let m2 = after_commit(m, w);
    let g = apply_record(st, ParsedRecord { seq: w.seq, op: w.op, key: kb, klen: kb.len(), vlen: w.value.len() });
    assert(g.index == m2.index);
}

/// Reopening a recoverable store: whatever replay builds from its log has
/// the same live keys at the same positions, the same write offset and the
/// same next sequence number, so every key reads the same value.
pub proof fn lemma_reopen(m: StoreModel, r: StoreModel)
    requires
        recoverable(m),
        replay_log(m.log) == Some(
            ReplayState { index: r.index, next_seq: r.next_seq, offset: r.write_offset as nat },
        ),
        r.log == m.log.take(r.write_offset as int),
    ensures
        r.index == m.index,
        r.next_seq == m.next_seq,
        r.write_offset == m.write_offset,
        r.log == m.log,
        stored_values(r) == stored_values(m),
{
    assert(m.log.take(m.log.len() as int) =~= m.log);
    assert(stored_values(r) =~= stored_values(m));
}

/// Replaying the log that compaction writes gives back compaction's index,
/// with the next sequence number after the last record.
pub proof fn lemma_compacted_replay(keys: Seq<Seq<char>>, values: Seq<Seq<u8>>, n: nat)
    requires
        n <= keys.len(),
        n <= values.len(),
        forall|i: int| 0 <= i < n ==> key_bytes(#[trigger] keys[i]).len() <= u32::MAX,
        forall|i: int| 0 <= i < n ==> (#[trigger] values[i]).len() <= u32::MAX,
        n < u64::MAX,
    ensures
        replay_log(compacted_log(keys, values, n)) == Some(
            ReplayState {
                index: compacted_index(keys, values, n),
                next_seq: n as u64,
                offset: compacted_log(keys, values, n).len(),
            },
        ),
    decreases n,
{
    if n == 0 {
        assert(replay_log(Seq::<u8>::empty()) == Some(replay_start()));
        assert(compacted_index(keys, values, 0) =~= Map::<Seq<char>, ValuePos>::empty());
    } else {
        let j = (n - 1) as nat;
        lemma_compacted_replay(keys, values, j);
        let f = ReplayState {
            index: compacted_index(keys, values, j),
            next_seq: j as u64,
            offset: compacted_log(keys, values, j).len(),
        };
        let kb = key_bytes(keys[j as int]);
        assert(key_bytes(keys[j as int]).len() <= u32::MAX);
        assert(values[j as int].len() <= u32::MAX);
        lemma_replay_append(compacted_log(keys, values, j), f, j as u64, OP_PUT, kb, values[j as int]);
        lemma_key_round_trip(keys[j as int]);
        lemma_record_value(compacted_log(keys, values, j), j as u64, OP_PUT, kb, values[j as int]);
    }
}

/// Compaction leaves the store recoverable.
pub proof fn lemma_compaction_recoverable(m: StoreModel, keys: Seq<Seq<char>>, values: Seq<Seq<u8>>)
    requires
        keys.len() == values.len(),
        forall|i: int| 0 <= i < keys.len() ==> key_bytes(#[trigger] keys[i]).len() <= u32::MAX,
        forall|i: int| 0 <= i < keys.len() ==> (#[trigger] values[i]).len() <= u32::MAX,
        keys.len() < u64::MAX,
        compacted_log(keys, values, keys.len()).len() <= u64::MAX,
    ensures
        recoverable(compacted_model(m, keys, values)),
{
    lemma_compacted_replay(keys, values, keys.len());
}

proof fn lemma_compacted_log_prefix(keys: Seq<Seq<char>>, values: Seq<Seq<u8>>, i: nat, n: nat)
    requires
        i <= n,
    ensures
        compacted_log(keys, values, i).len() <= compacted_log(keys, values, n).len(),
        compacted_log(keys, values, n).subrange(0, compacted_log(keys, values, i).len() as int)
            == compacted_log(keys, values, i),
    decreases n - i,
{
    if i < n {
        let j = (n - 1) as nat;
        lemma_compacted_log_prefix(keys, values, i, j);
        let a = compacted_log(keys, values, i);
        let b = compacted_log(keys, values, j);
        let c = compacted_log(keys, values, n);
        lemma_record_value(b, j as u64, OP_PUT, key_bytes(keys[j as int]), values[j as int]);
        assert(c.subrange(0, b.len() as int) == b);
        assert(c.subrange(0, a.len() as int) =~= b.subrange(0, a.len() as int));
    } else {
        assert(compacted_log(keys, values, n).subrange(0, compacted_log(keys, values, n).len() as int)
            =~= compacted_log(keys, values, n));
    }
}

/// Where compaction puts the value of its `i`-th key.
pub open spec fn compacted_pos(keys: Seq<Seq<char>>, values: Seq<Seq<u8>>, i: int) -> ValuePos {
    ValuePos {
        offset: (compacted_log(keys, values, i as nat).len() + HEADER_LEN + key_bytes(keys[i]).len()) as u64,
        len: values[i].len() as u32,
    }
}

proof fn lemma_compacted_index_at(keys: Seq<Seq<char>>, values: Seq<Seq<u8>>, i: int, n: nat)
    requires
        keys.no_duplicates(),
        0 <= i < n <= keys.len(),
    ensures
        compacted_index(keys, values, n).contains_key(keys[i]),
        compacted_index(keys, values, n)[keys[i]] == compacted_pos(keys, values, i),
    decreases n,
{
    if i < n - 1 {
        lemma_compacted_index_at(keys, values, i, (n - 1) as nat);
        assert(keys[i] != keys[n - 1]);
    }
}

proof fn lemma_compacted_index_dom(keys: Seq<Seq<char>>, values: Seq<Seq<u8>>, n: nat)
    requires
        n <= keys.len(),
    ensures
        compacted_index(keys, values, n).dom() == keys.take(n as int).to_set(),
    decreases n,
{
    if n > 0 {
        lemma_compacted_index_dom(keys, values, (n - 1) as nat);
        assert(keys.take(n as int) =~= keys.take(n - 1).push(keys[n - 1]));
        crate::ring::lemma_push_to_set(keys.take(n - 1), keys[n - 1]);
    } else {
        assert(keys.take(0).to_set() =~= Set::<Seq<char>>::empty());
        assert(compacted_index(keys, values, 0).dom() =~= Set::<Seq<char>>::empty());
    }
}

/// Compaction keeps every live key's value: given the values that reads of
/// the keys gave back, in key order, every key reads the same afterwards.
pub proof fn lemma_compaction_values(m: StoreModel, keys: Seq<Seq<char>>, values: Seq<Seq<u8>>)
    requires
        keys.no_duplicates(),
        keys.to_set() == m.index.dom(),
        keys.len() == values.len(),
        forall|i: int| 0 <= i < keys.len() ==> (#[trigger] values[i]).len() <= u32::MAX,
        forall|i: int| 0 <= i < keys.len() ==> #[trigger] values[i] == stored_values(m)[keys[i]],
        compacted_log(keys, values, keys.len()).len() <= u64::MAX,
    ensures
        stored_values(compacted_model(m, keys, values)) == stored_values(m),
{
    let n = keys.len();
    let c = compacted_model(m, keys, values);
    lemma_compacted_index_dom(keys, values, n);
    assert(keys.take(n as int) =~= keys);
    assert forall|k: Seq<char>| #[trigger] stored_values(c).contains_key(k) implies stored_values(
        c,
    )[k] == stored_values(m)[k] by {
        assert(keys.to_set().contains(k));
        let i = choose|i: int| 0 <= i < keys.len() && keys[i] == k;
        lemma_compacted_index_at(keys, values, i, n);
        let b = compacted_log(keys, values, i as nat);
        let kb = key_bytes(keys[i]);
        lemma_record_value(b, i as u64, OP_PUT, kb, values[i]);
        lemma_compacted_log_prefix(keys, values, (i + 1) as nat, n);
        let whole = compacted_log(keys, values, n);
        let part = compacted_log(keys, values, (i + 1) as nat);
        let p = compacted_pos(keys, values, i);
        assert(part == b + record_bytes(i as u64, OP_PUT, kb, values[i]));
        assert(p.offset == b.len() + HEADER_LEN + kb.len());
        assert(p.len == values[i].len());
        assert(whole.subrange(p.offset as int, p.offset + p.len) =~= part.subrange(
            p.offset as int,
            p.offset + p.len,
        ));
        assert(values[i] == stored_values(m)[keys[i]]);
    }
    assert(stored_values(c) =~= stored_values(m));
}

proof fn lemma_filter_none(s: Seq<Seq<char>>)
    ensures
        filter_prefix(s, None) == s,
    decreases s.len(),
{
    if s.len() > 0 {
        lemma_filter_none(s.drop_last());
        assert(s.drop_last().push(s.last()) =~= s);
    }
}

} // verus!
