# twinz

A small key-value server over local sockets (Unix) or named pipes (Windows),
built around a Bitcask-style append-only log store.

- `src/` is the verified library:
  - `format`: the entry format (`crc | timestamp | key_size | value_size | key | value`, big-endian, CRC-32 over everything after the checksum);
  - `wire`: big-endian integers;
  - `log`: scanning data files for entries and replaying them into the key directory;
  - `keydir`: the key directory;
  - `engine`: the log store's decisions (data file names and replay order, write records, lookups, compaction order, merge file and liveness, sync policy);
  - `laws`: what reading gives back of writing, persistence across replay, which entry replay keeps for each key, and what compaction into a new merge file keeps (also across a reopen), over a model of the data files;
  - `codec`: length-prefixed frames of the wire protocol;
  - `config`: the Twinzfile grammar;
  - `address`: server addresses and the paths they resolve to;
  - `plugin`, `kv`, `wasm`: plugin selection and the rules of the built-in and WebAssembly plugins;
  - `client`: how the interactive client reads a typed line into a request;
  - `text`: decimal numbers and characters of strings.
- `app/` is the server and client program: file and socket I/O, the async runtime, the
  JSON value type, WebAssembly hosting, and the command line.
- `tests/` exercises the library, including an in-memory drive of the log store.
