# normfs

A log for queues of records, and the archive that its files move to. Written
in Rust and verified with Verus: every function of the library states what it
returns or changes, and Verus proves it.

- `src/` is the library. It decides everything and touches no file: the
  formats of log and archive files, the pages that records wait on, the order
  in which they reach a file, what is reported durable and when, and what a
  read finds.
  - formats: `varint`, `words`, `crc32c`, `uintn`, `wal_header`,
    `wal_header_v1`, `wal_entry`, `wal_entry_v1`, `wal_file`, `store_header`,
    `store_header_v1`
  - memory: `wal_page`, `wal_ring_v1`, `wal_ring_range`, `wal_arena`,
    `page_pool`, with what always holds of it in `pool_laws`, `pool_history`,
    `read_laws`, `flush_order` and `file_history`
  - writing: `writer_buffer`, `writer`, `ack_file_writer`, `flush_attempt`
  - reading: `reader`, `wal_store`
  - archiving: `store`, `ranges`
  - `buf`, `hash` and `interval` hold the calls into other crates and the
    standard library whose results are taken on trust; each says what is
    claimed of it.
- `app/` runs the library on files, channels, locks and timers with tokio.
  Encryption, compression, remote storage and the layout of a queue's
  directory come in through the traits in `app/services.rs`.
- `tests/` runs the library on concrete values.
