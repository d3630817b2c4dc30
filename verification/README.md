# algos

A collection of small data structures and algorithms, each with its behaviour stated in
contracts and proved.

## Layout

- `src/` — the verified library:
  - `lru_model`, `lru`, `lru_bitmap`, `bitmap`, `sparse_ring`: least-recently-used caches (a
    list-based one, and one built on a ring buffer of sparse slots tracked by a bitmap),
    both proved against one abstract model.
  - `local_cache`: a cache of shared values with size-based (LRU) and age-based eviction,
    its model, and the laws that tie reads to writes.
  - `graph`: directed graphs, depth-first finishing order, and strongly connected components
    with the graph of components.
  - `bus_routes`: fewest buses between two stops (breadth-first search), proved optimal.
  - `problems`: search-insert position and bracket matching.
  - `auth`: user table and login with SHA-256 password hashes.
  - `basics`: small functions (arithmetic, strings, a counter, a bucket map, prime test,
    counting non-blank lines, a byte record format).
- `tests/` — tests of the library on concrete values.
- `app/` — the programs around the library: input and output, files, threads, async
  runtimes, and the examples that rest on floating point or raw memory.
