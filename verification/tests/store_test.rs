use minikv_lite::store::{Store, StoreStats};

/// A store together with the bytes of its data file, held in memory.
struct Disk {
    store: Store,
    log: Vec<u8>,
}

impl Disk {
    fn open(mut log: Vec<u8>) -> Disk {
        let store = Store::replay(&log).unwrap();
        log.truncate(store.write_offset() as usize);
        Disk { store, log }
    }

    fn put(&mut self, key: &str, value: &[u8]) {
        let w = self.store.put(key, value);
        self.log.extend_from_slice(w.record());
        self.store.commit(w);
    }

    fn read(&self, key: &str) -> Option<Vec<u8>> {
        self.store
            .locate(key)
            .map(|p| self.log[p.offset as usize..p.offset as usize + p.len as usize].to_vec())
    }

    fn get(&mut self, key: &str) -> Option<Vec<u8>> {
        let pos = self.store.get(key);
        pos.map(|p| self.log[p.offset as usize..p.offset as usize + p.len as usize].to_vec())
    }

    fn delete(&mut self, key: &str) -> bool {
        match self.store.delete(key) {
            None => false,
            Some(w) => {
                self.log.extend_from_slice(w.record());
                self.store.commit(w);
                true
            }
        }
    }

    fn compact(&mut self) {
        let values: Vec<Vec<u8>> = self
            .store
            .keys()
            .iter()
            .map(|k| self.read(k).expect("index and data file are inconsistent"))
            .collect();
        let (next, bytes) = self.store.compaction(&values);
        self.store = next;
        self.log = bytes;
    }

    fn stats(&self) -> StoreStats {
        self.store.stats(self.log.len() as u64)
    }

    fn len(&self) -> usize {
        self.store.len()
    }
}

#[test]
fn put_get_delete_and_recover() {
    let log = {
        let mut s = Disk::open(Vec::new());
        s.put("a", b"1");
        s.put("b", b"hello");
        s.put("a", b"2");
        assert_eq!(s.get("a").as_deref(), Some(&b"2"[..]));
        assert!(s.delete("b"));
        assert_eq!(s.get("b"), None);
        s.log
    };

    let mut s = Disk::open(log);
    assert_eq!(s.get("a").as_deref(), Some(&b"2"[..]));
    assert_eq!(s.get("b"), None);
    assert_eq!(s.len(), 1);
    s.compact();
    assert_eq!(s.get("a").as_deref(), Some(&b"2"[..]));
    assert_eq!(s.len(), 1);
}

#[test]
fn stats_track_operations_and_file_size() {
    let mut s = Disk::open(Vec::new());

    let initial = s.stats();
    assert_eq!(initial.keys, 0);
    assert_eq!(initial.puts, 0);
    assert_eq!(initial.gets, 0);
    assert_eq!(initial.deletes, 0);

    s.put("alpha", b"one");
    s.put("beta", b"two");
    assert_eq!(s.get("alpha").as_deref(), Some(&b"one"[..]));
    assert!(s.delete("beta"));

    let stats = s.stats();
    assert_eq!(stats.keys, 1);
    assert_eq!(stats.puts, 2);
    assert_eq!(stats.gets, 1);
    assert_eq!(stats.deletes, 1);
    assert_eq!(stats.next_seq, 3);
    assert!(stats.write_offset > 0);
    assert_eq!(stats.write_offset, stats.data_file_bytes);
}

#[test]
fn keys_are_sorted_for_stable_admin_output() {
    let mut s = Disk::open(Vec::new());

    s.put("zulu", b"z");
    s.put("alpha", b"a");
    s.put("middle", b"m");
    s.delete("zulu");

    assert_eq!(
        s.store.keys(),
        vec!["alpha".to_string(), "middle".to_string()]
    );
}

#[test]
fn compact_rewrites_live_values_and_updates_stats() {
    let mut s = Disk::open(Vec::new());

    for value in ["one", "two", "three", "four"] {
        s.put("same-key", value.as_bytes());
    }
    s.put("keep", b"value");
    s.delete("keep");

    let before = s.stats().data_file_bytes;
    s.compact();
    let after = s.stats();

    assert!(after.data_file_bytes < before);
    assert_eq!(after.keys, 1);
    assert_eq!(after.next_seq, 1);
    assert_eq!(s.get("same-key").as_deref(), Some(&b"four"[..]));
}

#[test]
fn keys_with_prefix_and_limit_stays_sorted() {
    let mut s = Disk::open(Vec::new());

    for key in ["app:3", "sys:1", "app:1", "app:2", "sys:2"] {
        s.put(key, key.as_bytes());
    }

    assert_eq!(
        s.store.keys_with_prefix(Some("app:"), Some(2)),
        vec!["app:1".to_string(), "app:2".to_string()]
    );
    assert_eq!(
        s.store.keys_with_prefix(Some("missing:"), None),
        Vec::<String>::new()
    );
}

#[test]
fn delete_missing_key_does_not_increment_delete_counter() {
    let mut s = Disk::open(Vec::new());

    assert!(!s.delete("missing"));
    assert_eq!(s.stats().deletes, 0);
}

#[test]
fn replay_restores_index_without_process_local_counters() {
    let log = {
        let mut s = Disk::open(Vec::new());
        s.put("persisted", b"value");
        assert_eq!(s.get("persisted").as_deref(), Some(&b"value"[..]));
        s.log
    };

    let mut s = Disk::open(log);
    let stats = s.stats();
    assert_eq!(stats.keys, 1);
    assert_eq!(stats.puts, 0);
    assert_eq!(stats.gets, 0);
    assert_eq!(stats.next_seq, 1);
    assert_eq!(s.get("persisted").as_deref(), Some(&b"value"[..]));
}

#[test]
fn replay_stops_at_a_torn_record() {
    let mut s = Disk::open(Vec::new());
    s.put("a", b"1");
    let clean = s.log.len();
    s.put("b", b"22");
    let mut log = s.log.clone();
    log.truncate(log.len() - 1);
    let r = Disk::open(log);
    assert_eq!(r.store.write_offset(), clean as u64);
    assert_eq!(r.read("a").as_deref(), Some(&b"1"[..]));
    assert_eq!(r.read("b"), None);
    assert_eq!(r.store.next_seq(), 1);
}

#[test]
fn a_write_after_a_torn_tail_reads_back() {
    let mut s = Disk::open(Vec::new());
    s.put("a", b"1");
    s.put("b", b"22");
    let mut log = s.log.clone();
    log.truncate(log.len() - 1);
    let mut r = Disk::open(log);
    r.put("k", &[7]);
    assert_eq!(r.get("k").as_deref(), Some(&[7u8][..]));
    assert_eq!(r.get("a").as_deref(), Some(&b"1"[..]));
    assert_eq!(r.store.write_offset(), r.log.len() as u64);
    let again = Disk::open(r.log.clone());
    assert_eq!(again.read("k").as_deref(), Some(&[7u8][..]));
    assert_eq!(again.store.keys(), vec!["a".to_string(), "k".to_string()]);
}

#[test]
fn reopening_restores_offset_and_sequence() {
    let mut s = Disk::open(Vec::new());
    s.put("x", b"1");
    s.put("y", b"2");
    assert!(s.delete("x"));
    s.put("z", b"3");
    let r = Disk::open(s.log.clone());
    assert_eq!(r.store.next_seq(), s.store.next_seq());
    assert_eq!(r.store.next_seq(), 4);
    assert_eq!(r.store.write_offset(), s.store.write_offset());
    assert_eq!(r.store.keys(), s.store.keys());
    assert_eq!(r.read("y").as_deref(), Some(&b"2"[..]));
    assert_eq!(r.read("x"), None);
}

#[test]
fn replay_stops_at_a_checksum_mismatch() {
    let mut s = Disk::open(Vec::new());
    s.put("a", b"1");
    let clean = s.log.len();
    s.put("b", b"2");
    let mut log = s.log.clone();
    let last = log.len() - 1;
    log[last] ^= 0xff;
    let r = Disk::open(log);
    assert_eq!(r.store.write_offset(), clean as u64);
    assert_eq!(r.store.len(), 1);
}

#[test]
fn replay_refuses_a_log_whose_sequence_would_overflow() {
    let mut log = minikv_lite::record::encode_record(u64::MAX, 1, b"k", b"v");
    assert!(Store::replay(&log).is_none());
    log = minikv_lite::record::encode_record(7, 1, b"k", b"v");
    let s = Store::replay(&log).unwrap();
    assert_eq!(s.next_seq(), 8);
}

#[test]
fn record_layout_is_checksum_then_header_then_key_and_value() {
    let rec = minikv_lite::record::encode_record(3, 1, b"ab", b"xyz");
    assert_eq!(rec.len(), 21 + 2 + 3);
    let body = minikv_lite::record::build_record_body(3, 1, b"ab", b"xyz");
    assert_eq!(&rec[4..], &body[..]);
    assert_eq!(&body[0..8], &3u64.to_le_bytes());
    assert_eq!(body[8], 1);
    assert_eq!(&body[9..13], &2u32.to_le_bytes());
    assert_eq!(&body[13..17], &3u32.to_le_bytes());
    assert_eq!(&body[17..], b"abxyz");
    // the checksum is CRC-32 (IEEE) of the body
    let crc = u32::from_le_bytes([rec[0], rec[1], rec[2], rec[3]]);
    assert_eq!(crc, crc32fast::hash(&body));
    assert_eq!(crc32fast::hash(b"123456789"), 0xCBF4_3926);
}

#[test]
fn keys_with_multibyte_characters_round_trip() {
    let mut s = Disk::open(Vec::new());
    s.put("ключ", "значение".as_bytes());
    s.put("b", b"x");
    let mut r = Disk::open(s.log.clone());
    assert_eq!(r.get("ключ").as_deref(), Some("значение".as_bytes()));
    assert_eq!(r.store.keys(), vec!["b".to_string(), "ключ".to_string()]);
}

#[test]
fn every_operation_changes_the_counters_it_should() {
    let mut s = Disk::open(Vec::new());
    assert!(s.store.is_empty());
    s.put("k", b"v");
    assert_eq!(s.get("missing"), None);
    assert_eq!(s.stats().gets, 1);
    assert!(s.store.contains_key("k"));
    assert!(!s.store.is_empty());
    let w = s.store.put("k", b"w");
    assert_eq!(w.seq(), 1);
    assert_eq!(s.store.next_seq(), 2);
    // an abandoned write uses up its sequence number but changes nothing else
    assert_eq!(s.get("k").as_deref(), Some(&b"v"[..]));
}

#[test]
fn volume_admin_stats_reports_store_state() {
    let mut s = Disk::open(Vec::new());
    s.put("a", b"one");
    let stats = s.stats();
    assert_eq!(stats.keys, 1);
    assert_eq!(stats.puts, 1);
    assert_eq!(stats.data_file_bytes, stats.write_offset);
}

#[test]
fn volume_admin_keys_are_sorted_and_compact_preserves_values() {
    let mut s = Disk::open(Vec::new());
    for (key, value) in [("b", "old"), ("a", "first"), ("b", "new")] {
        s.put(key, value.as_bytes());
    }
    assert_eq!(s.store.keys(), vec!["a".to_string(), "b".to_string()]);
    s.compact();
    assert_eq!(s.get("b").as_deref(), Some(&b"new"[..]));
}

#[test]
fn volume_admin_keys_support_prefix_and_limit() {
    let mut s = Disk::open(Vec::new());
    for key in ["app:3", "sys:1", "app:1", "app:2"] {
        s.put(key, key.as_bytes());
    }
    assert_eq!(
        s.store.keys_with_prefix(Some("app:"), Some(2)),
        vec!["app:1".to_string(), "app:2".to_string()]
    );
}

#[test]
fn compacted_log_replays_to_the_same_index() {
    let mut s = Disk::open(Vec::new());
    s.put("x", b"1");
    s.put("y", b"2");
    s.put("x", b"3");
    s.delete("y");
    s.put("z", b"4");
    s.compact();
    let mut r = Disk::open(s.log.clone());
    assert_eq!(r.store.keys(), vec!["x".to_string(), "z".to_string()]);
    assert_eq!(r.get("x").as_deref(), Some(&b"3"[..]));
    assert_eq!(r.get("z").as_deref(), Some(&b"4"[..]));
    assert_eq!(r.store.next_seq(), 2);
    assert_eq!(r.store.write_offset(), s.log.len() as u64);
}
