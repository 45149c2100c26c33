# Token cache

A verified in-memory cache that serves token queries of many chains without a database, and the
preparation of the Substreams packages that feed the indexer.

- `src/` is the library. Every function in it carries a contract that Verus proves. The modules
  `model`, `cache` and `loader` say mathematically what a store, a cache and a load are; the
  modules ending in `_laws` prove what holds of all of them.
- `app/` is ordinary Rust around the library: the cache behind a lock, filled from Postgres, the
  refresh task, and the build of packages on the file system.
- `tests/` runs the library on concrete values.

What is taken on trust from other crates stands in `src/bitmap.rs` (compressed bitmaps of
`roaring`), `src/timestamp.rs` (microseconds of `chrono`) and `src/spkg.rs` (`String::push`).
