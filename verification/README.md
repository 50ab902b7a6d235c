# copper

A small document store. Documents are JSON values; storing one stamps it
with a random 15-character `_id` and appends an insertion to an in-memory
log. A background worker drains the log into a temporary file, one record
per line, and every 50th round copies that file into the database file.
Opening a database reads its file line by line.

Layout:

- `src/` — the verified library (Verus):
  - `keys.rs`: the order on object keys and its laws;
  - `json.rs`: `JsonValue` and `JsonObject`, a sorted map with unique keys;
  - `entry.rs`, `index.rs`: log entries and indexes;
  - `database.rs`: stamping and storing documents, draining the log, loading
    the database text;
  - `limits.rs`: the bounds (nesting, open keys, exponents, length) within which text is handed
    to the JSON parser;
  - `records.rs`: the one-record-per-line framing and its read-back law;
  - `persist.rs`: the round-by-round decisions of the persistence worker;
  - `outside.rs`: the calls into `rand`, `rustc_serialize` and std, with the
    contracts believed of them.
- `app/` — files, memory maps, threads, and the conversion between
  `rustc_serialize`'s JSON tree and `JsonValue`.
- `tests/` — tests of the library.
