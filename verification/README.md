# minikv_lite

A small distributed key-value store: a coordinator that places keys on
volumes with a consistent-hash ring and replicates writes to them, and
volumes that keep their data in an append-only, checksummed log.

## Layout

- `src/` — the verified library (Verus).
  - `bytes_order.rs` — lexicographic order on byte strings, prefix tests.
  - `keyed.rs` — a string-keyed map held sorted by key bytes.
  - `text.rs` — decimal numerals, percent-encoding, base URLs.
  - `ring.rs` — the consistent-hash ring and replica selection.
  - `record.rs` — the log record format, its checksum and its replay.
  - `store.rs` — the storage engine: index, two-step writes, compaction.
  - `coord.rs` — the coordinator's registry, health and routing.
  - `replication.rs` — quorum writes, replica reads and heartbeat answers.
- `app/` — the programs: HTTP servers, file and network I/O, the CLI.
  Run `minikv coord ...`, `minikv volume ...` or `minikv cli ...`.
- `tests/` — tests of the library.

## Log record

```text
crc(4) | seq(8) | op(1) | klen(4) | vlen(4) | key | value
```

Integers are little-endian; the CRC-32 covers everything after it; `op` is
1 for a put and 2 for a delete. Replay reads records from the start and
stops at the first one that is cut short, fails its checksum, or names an
unknown operation. What follows that point is dropped from the data file
when it is opened, so that new records go where the index expects them.
