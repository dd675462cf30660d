//! The decisions of the write path: which changes are logged, when the engine
//! is saved and the log emptied. Writing the log and the saved file is left
//! to the caller, which performs each step's action and reports back.

use vstd::prelude::*;
use crate::recovery::applied;
use crate::schema::Row;
use crate::storage_engine::{StorageEngine, table_not_found};
use crate::wal::{WALEntry, WalProgress};

verus! {

/// An engine whose changes go through the write-ahead log, with the count of
/// records logged since the engine was last saved.
pub struct Durable {
    engine: StorageEngine,
    progress: WalProgress,
}

impl Durable {
    /// The engine.
    pub closed spec fn engine(&self) -> StorageEngine {
        self.engine
    }

    /// The records logged since the engine was last saved.
    pub closed spec fn logged(&self) -> usize {
        self.progress.count()
    }

    /// The number of logged records after which the engine is saved.
    pub closed spec fn interval(&self) -> usize {
        self.progress.interval()
    }

    /// The engine is well formed.
    pub closed spec fn wf(&self) -> bool {
        self.engine.wf()
    }

    /// `engine`, just saved, saved again after `checkpoint_interval` logged
    /// records.
    pub fn new(engine: StorageEngine, checkpoint_interval: usize) -> (d: Self)
        requires
            engine.wf(),
        ensures
            d.wf(),
            d.engine() == engine,
            d.logged() == 0,
            d.interval() == checkpoint_interval,
    {
        Durable { engine, progress: WalProgress::new(checkpoint_interval) }
    }

    /// The number of records logged since the engine was last saved.
    pub fn logged_count(&self) -> (r: usize)
        ensures
            r == self.logged(),
    {
        self.progress.entry_count()
    }

    /// The engine, to read or to save.
    pub fn engine_ref(&self) -> (e: &StorageEngine)
        ensures
            *e == self.engine(),
    {
        &self.engine
    }

    /// The engine, for good.
    pub fn into_engine(self) -> (e: StorageEngine)
        ensures
            e == self.engine(),
    {
        self.engine
    }

    /// The record to log before creating table `name` with `columns`.
    pub fn log_create_table(name: &str, columns: Vec<String>) -> (entry: WALEntry)
        ensures
            entry matches WALEntry::CreateTable { name: n, columns: c } && n@ == name@ && c@ == columns@,
    {
        WALEntry::CreateTable { name: String::from_str(name), columns }
    }

    /// The record to log before adding `row` to table `table`; an insertion
    /// into a missing table fails at once and is not logged.
    pub fn log_insert(&self, table: &str, row: Row) -> (r: Result<WALEntry, String>)
        requires
            self.wf(),
        ensures
            match r {
                Ok(entry) => {
                    &&& self.engine().tables().contains_key(table@)
                    &&& entry matches WALEntry::InsertRow { table: t, row_id, row: rw } && t@ == table@ && row_id == 0 && rw == row
                },
                Err(m) => !self.engine().tables().contains_key(table@) && m@ == table_not_found(table@),
            },
    {
        match self.engine.get_table(table) {
            Some(_) => Ok(WALEntry::InsertRow { table: String::from_str(table), row_id: 0, row }),
            None => Err(crate::storage_engine::not_found_message(table)),
        }
    }

    /// Applies `entry` once it is in the log: counts the record, and applies
    /// the change. Gives whether the engine is now due to be saved.
    pub fn commit(&mut self, entry: WALEntry) -> (r: Result<bool, String>)
        requires
            old(self).wf(),
            old(self).logged() < usize::MAX,
            entry matches WALEntry::InsertRow { row, .. } ==> row.wf(),
        ensures
            final(self).wf(),
            final(self).logged() == old(self).logged() + 1,
            final(self).interval() == old(self).interval(),
            match r {
                Ok(due) => {
                    &&& applied(old(self).engine(), entry, final(self).engine())
                    &&& due == (final(self).logged() >= final(self).interval())
                },
                Err(m) => {
                    &&& entry matches WALEntry::InsertRow { table, .. } && !old(self).engine().tables().contains_key(table@)
                        && m@ == table_not_found(table@)
                    &&& final(self).engine() == old(self).engine()
                },
            },
    {
        self.progress.record_append();
        match self.engine.apply_wal_entry(entry) {
            Ok(()) => Ok(self.progress.should_checkpoint()),
            Err(m) => Err(m),
        }
    }

    /// Builds an index of `column` of table `table`. Indexes are not logged,
    /// so a built index makes the engine due to be saved at once; the result
    /// is that it is due.
    pub fn create_index(&mut self, table: &str, column: &str) -> (r: Result<bool, String>)
        requires
            old(self).wf(),
        ensures
            final(self).wf(),
            final(self).logged() == old(self).logged(),
            final(self).interval() == old(self).interval(),
            match r {
                Ok(due) => {
                    &&& due
                    &&& old(self).engine().tables().contains_key(table@)
                    &&& final(self).engine().tables() == old(self).engine().tables()
                    &&& final(self).engine().indexes() == old(self).engine().indexes().insert(table@,
                        old(self).engine().indexes()[table@].insert(column@, final(self).engine().indexes()[table@][column@]))
                },
                Err(m) => {
                    &&& !old(self).engine().tables().contains_key(table@)
                    &&& m@ == table_not_found(table@)
                    &&& final(self).engine() == old(self).engine()
                },
            },
    {
        match self.engine.create_index(table, column) {
            Ok(()) => Ok(true),
            Err(m) => Err(m),
        }
    }

    /// Notes that the engine was saved and the log emptied.
    pub fn saved(&mut self)
        ensures
            final(self).engine() == old(self).engine(),
            final(self).logged() == 0,
            final(self).interval() == old(self).interval(),
            final(self).wf() == old(self).wf(),
    {
        self.progress.reset();
    }
}

} // verus!
