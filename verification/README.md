# risingwave_core

Verified pieces of a streaming database, written in Verus.

- `src/file_cache`: the files of a block cache. Their names, the header block, and what opening a
  new or an existing file gives.
- `src/stream`: the backfill of a streaming table. Reading a snapshot and a change log into chunks
  with the output columns, keeping the barriers of the upstream meanwhile, and the state machine that ties them together.
  `backfill_laws` states what holds of every run.
- `src/insert.rs`, `src/insert`: the insertion of batches into a table, as a whole and step by step.
- `src/decimal.rs`, `src/chunk.rs`, `src/catalog.rs`: numerals, chunks and schemas that the others
  share.
- `app`: file access, channels and streams around the library, in ordinary Rust.

Two functions are trusted: `get_u32` and `get_u64` in `src/file_cache/big_endian.rs`, which call the
`bytes` crate.
