# dstd

A lightweight standard-library replacement whose data structures and decision
logic are verified with Verus.

- `src/` is the verified library: the Robin Hood hash map with its hasher and
  iterators, platform strings and paths, file-open flags, the I/O error type and
  the read/write/seek traits, socket address records, the decisions of the
  futex-based locks, the panic report, and the argument and environment walkers.
- `app/` performs the operating-system calls around it: opening files, the
  standard streams, blocking on lock words, threads, sockets, randomness, the
  panic hook and process exit.
- `tests/` runs the library on concrete values.
