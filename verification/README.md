# rbtree_db

A small key-value database whose index is a red-black tree, verified with Verus.

- `src/` is the verified library:
  - `key`: ordered keys (`i32`, `String` by character order);
  - `tree`: nodes, the red-black tree (insert, delete, get, min, max, range,
    rotations) and the bounded in-order iterator, with the red-black
    invariants, the height bound and the cost bound of a range traversal;
  - `db`: the database's textual answers to GET, SET, DELETE, RANGE, KEYS,
    MIN and MAX;
  - `command`: parsing an input line into a command and running it;
  - `persistence`: the dump format (one `SET <key> <value>` line per pair),
    its reader, and the answer to SAVE;
  - `text`: trimming and whitespace helpers.
- `app/` is the interactive prompt and the dump file on disk
  (`data/dump.rdb`), written with SAVE and read back with LOAD and at start.
- `tests/` runs the library on concrete values.
