# inmemorytable

Fixed-capacity record tables kept in shared memory, so that several processes
can read and write the same records, verified with Verus.

A table lives in byte regions:

- the table region: a 16-byte header (the magic bytes `INMEMT` and the
  capacity) followed by an arena of fixed-size record slots with an intrusive
  free list;
- the primary-key region: a chained hash index from 64-bit keys to slot
  numbers, made of bucket words followed by an arena of nodes;
- optionally, a registry of secondary index definitions and sorted range
  indexes over `Id` values.

## Layout

- `src/` is the verified library. Every operation works on `&[u8]` /
  `&mut [u8]` regions and is specified over a mathematical view of them:
  the record arena as a sequence of optional byte strings
  (`internal::slot::contents`), the index as a map from key to slot
  (`Index::view_of`), the table as a map from key to record bytes
  (`Table::view_of`), the range index as a sorted sequence of
  `(Id, position)` entries. `check` functions decide whether a region is well
  formed, so that a region mapped by another process can be attached safely.
- `app/` maps the POSIX shared memory segments, takes the System V
  semaphores, serialises records with `bincode`, and offers the typed
  `Table<T>` API on top of the library.
- `tests/` exercises the library on plain buffers.
