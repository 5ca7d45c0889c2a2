# srdb

The storage layer of a small relational database, verified with Verus.

- `src/list.rs` — `MultiList`: several doubly linked, circular lists over one
  array of nodes; modelled as a sequence of lists of distinct elements.
- `src/bm.rs` — least-recently-used slot replacement, `CustomHashMap` (a
  one-to-one slot map searchable both ways) and `BufManager`, the page buffer.
  The buffer decides which slot a page gets and which page has to be written
  back; its methods return those decisions so that the caller performs the
  disk I/O.
- `src/fm.rs` — `FileManager`: the registry of a database's files (name to id).
- `src/file_ids.rs` — the `file.id` text format: reading and writing it, with
  the proof that what is written reads back, for file names that are non-empty
  and hold no white space (`fm.rs` adds that reloading it restores the registry).
- `src/page.rs`, `src/rm.rs` — page layouts and the record manager, which
  creates a table file through the buffer and returns the disk writes to make.
- `src/bimap_spec.rs` — the `bimap` crate's map as the library uses it.
- `app/` — the program: database directories, files and page I/O.
