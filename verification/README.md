# Bathtub DB

An object store and a small version control tool (`tub`) built on it, with
the data formats, indexes and decisions verified by Verus.

- `src/` is the verified library: Dbase32, object and leaf formats, the
  object store indexes, directory listings, tracking and ignore lists, leaf
  hash lists, location maps, compressed object streams, the signed block
  chain's blocks and state, and the sorted maps they are built on.  Each public function carries a
  contract; the laws that tie functions together (round trips, sort order,
  replaying an index) are public proof functions.
- `tests/` runs the library against concrete values.
- `app/` is the command line tool: file system, terminal and key generation
  around the library.
