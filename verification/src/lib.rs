//! A small database: tables of rows kept in memory, B-tree indexes on their
//! columns, a parser for `SELECT` queries, an executor for query plans, and
//! the framing of write-ahead log records.
//!
//! The modules:
//! - `keys`: the order of index keys.
//! - `btree`: B-tree indexes from keys to row ids.
//! - `assoc`: string-keyed lists used as maps.
//! - `schema`: rows and tables.
//! - `storage_engine`: tables with their indexes, kept consistent.
//! - `query`: query plans.
//! - `executor`: running query plans.
//! - `tokenizer` and `parser`: from a query string to a statement.
//! - `wal`: write-ahead log records, their framing, and checkpoint timing.
//! - `recovery`: the engine rebuilt at start-up from the saved engine and the log.
//! - `durable`: the write path's decisions: what is logged, when the engine is saved.

pub mod keys;
pub mod btree;
pub mod assoc;
pub mod schema;
pub mod wal;
pub mod storage_engine;
pub mod query;
pub mod executor;
pub mod parser;
pub mod tokenizer;
pub mod recovery;
pub mod durable;
