# neb

The verified core of a cell store: what its index, schemas, cell writer, statistics and server
start-up decide and compute.

- `src/index`: entry keys, B+ trees whose leaves are stored pages, the levels that such trees form
  (LSM trees), cursors over them, splitting, and the service that hands out cursors.
- `src/ram`: values, schemas with the places of their fields, and the planning of cell writes.
- `src/query`: histograms and other statistics of chunks of cells.
- `src/server`: the order of steps in which a server starts.
- `tests`: the library seen from outside.
- `app`: threads, clocks, locks, the cluster and storage around the library.

Every function of `src` is proved against its contract by Verus, except the few that call
`smallvec`, `linked-hash-map` or `rand`; each of those says in its comment what is taken on trust.
