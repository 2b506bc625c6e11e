# reedis

A key-value database served over TCP, written in Verus.

- `src/` is the verified library. `src/wire/` holds the binary protocol: the codes of
  commands and value types, values and nested tables, decoding values and commands from
  bytes (with checks that tell, before decoding, whether the bytes hold all they announce),
  encoding them back, storing and reading values at key paths, the executor that runs
  `Get` and `Put` commands, and `handle_packet`, which takes a packet's bytes to the
  bytes of its answer. `src/data.rs`, `src/database.rs` and `src/session.rs` hold the
  newer database reached by `/`-separated paths, and `src/parser.rs` turns JSON values into
  stored values.
- A store in the newer database reports the change through an `ExecutionContext`: one
  event for the path to each listener registered for it (`src/events.rs`);
  `MemTable::create_delete_events` reports a table and every table nested in it.
- The laws that the library states are proof functions named `law_*`: reading a value at a
  path after storing it there, stores that leave other keys alone, where moved tables sit,
  decoding what was encoded, reading back a serialized command, and a data session that
  answers its commands in order up to the first terminate.
- Lengths on the wire are `usize`-wide; the functions that write or read them require a
  64-bit `usize`, where that width is eight bytes.
- `app/` is the program around the library: the TCP servers, threads and channels, and the
  serde_json reader.
- `tests/` runs the library on concrete values.
