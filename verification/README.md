# chronicle

A recorder's processing core, verified with Verus: HTTP/1.1 parsing and
canonicalization, TCP payload ordering and connection reconstruction from a
write-ahead log, incremental ETL over committed WAL snapshots with
exactly-once publication keys, checkpoint recovery against an artifact
store, canonical delta batches, replay planning and the replay run state
machine, and native execution-context evidence.

Layout:

- `src/` — the verified library. Each module states its behaviour over
  mathematical models (`Seq`, `Set`, `Map`, views of its types) and proves
  it; calls into `sha2`, `httparse`, `uuid` and `std::string::String::from_utf8`
  stand behind a small number of trusted wrappers.
- `tests/` — tests of the library on concrete values.
- `app/` — what Verus does not check: JSON forms of library types, the TCP
  transport and the loop that runs a replay, the recording store on a local
  filesystem, and checkpoint files.

Protocol detection and decoding of reconstructed connections, and the byte
encoding of operations for publication keys, are supplied by the caller
through the `ReconstructedProtocols` trait; serialization of library values
happens in `app/`, and the library checks and frames the bytes.
