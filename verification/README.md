# ferrite

A minimal database: tables of rows in memory, B-tree indexes on their
columns, a tokenizer and parser for `SELECT ... FROM ... WHERE column = value`
queries, an executor that uses an index when one is available, and a
write-ahead log with periodic checkpoints.

## Layout

- `src/`: the library, verified with Verus. Every public function states its
  result in its `ensures`; the laws that span several functions (an index
  agrees with its table's rows, an index finds the same rows as a table scan,
  a framed log reads back as written, lookups after insertions find the
  inserted rows, replaying a log entry has one outcome) are public proof
  functions. Recovery at start-up (the saved engine with the logged changes
  applied), rebuilding a saved engine, and the write path's decisions (what
  is logged, when the engine is saved) are verified functions too.
- `tests/`: tests of the library on concrete values.
- `app/`: the program around the library: files, the write-ahead log file,
  and binary encoding of the engine with serde and bincode. A saved engine
  keeps its indexed columns, and their indexes are rebuilt from the rows on
  loading; the rows fix an index's entries.
