# PeachDB

A file-backed key/value database with a binary TCP protocol. The storage formats, the
in-memory state and its operations, the write-ahead log, the wire protocol, how requests are
answered and each step of a connection are a library verified with Verus; the program around it (files, sockets, tasks) is
ordinary Rust.

## Layout

- `src/` — the verified library (crate `peachdb`)
  - `endian.rs` — little- and big-endian integer encodings
  - `error.rs` — `PeachDbError`, the text each error is shown with, how decoders report failures
  - `dtypes.rs` — `Key`, `Dtype`, `Primitive`, `Field` and their byte encodings
  - `db/codec.rs` — encoders and decoders of the data file, its index and the log
  - `db/keymap.rs` — the insertion-ordered map the state keeps its values and index in
  - `db/wal.rs` — log entries and the log
  - `db/db.rs` — the state, its operations, and what a flush writes
  - `db/store.rs` — the state and the log together, the values always the committed ones with
    the log applied
  - `db/laws.rs` — what the file formats read back
  - `db/durable.rs` — the data file as records, and that a flush's writes read back as the values
  - `server/protocol.rs` — requests and responses on the wire
  - `server/server.rs` — how a request is answered, and each step of a connection
- `app/` — the program: opens `peachdb.db`, `.dbidx` and `.wal`, serves 127.0.0.1:7878; it
  performs the reads and writes the library's steps ask for
- `tests/` — tests of the library
