# subdb

A reference-counted store of data under keys. An index leads from the leading bytes of a key to an
address, and content tables hold the data at those addresses, in size classes.

- `src/` is the library: the options, the index, the content tables, the mapping of oversize data, the
  database over them, and a store on top whose removals may come before the insertions that they take
  back. Every function states what it does, and `src/laws.rs` states what holds across them.
- `app/` keeps a database in a directory: files, locks, logging, and the traits of `hash_db`.
- `tests/` runs the library on examples.

A database is opened from an `Image` of what is on disk, and `commit` hands such an image out. An
insertion that finds the index full, or leaves it crowded, says so, and the caller has the index
rebuilt with `plan_reindex` and `reindex`.
