//! The state of a database in memory and the decisions of its scheduler.
//!
//! Everything here works on plain values. Threads, locks, the clock and the
//! disk belong to the caller: it hands in the time and what it has read and
//! carries out what the functions return.

use std::sync::Arc;

use vstd::prelude::*;

use crate::engine::vec_data::same_text;
use crate::errors::QueryError;
use crate::mem_store::column::Column;
use crate::mem_store::lru::{ColumnLocator, PartitionID};
use crate::mem_store::partition::saturating_sum;
use crate::mem_store::raw_col::MixedCol;
use crate::mem_store::table::{end_offset, first_run, ids_at, ids_of, overfull, run_at};
use crate::scheduler::subpartition::{
    group_index, in_layout_order, laid_out, sorted_by_name, subpartition, SubpartitionMetadata,
};
use crate::ingest::buffer::{
    all_have_len, appended_len, extended, lemma_with_columns_len, longest,
    batch_len, lemma_row_cells, names_of, row_entries, typed_entries, untyped_entries,
    with_batch, with_columns, with_row,
};
use crate::ingest::event_buffer::{column_entries, ColumnData, EventBuffer, TableBuffer};
use crate::ingest::input_column::InputColumn;
use crate::ingest::raw_val::{RawVal, Value};
use crate::locustdb::Options;
use crate::mem_store::lru::Lru;
use crate::mem_store::table::Table;

verus! {

/// The tables of a database with the rows that are in memory, the order in
/// which loaded columns may be evicted, and the size of the write-ahead log.
#[derive(Debug)]
pub struct InnerLocustDB {
    pub tables: Vec<Table>,
    pub lru: Lru,
    pub wal_size: u64,
    pub opts: Options,
    pub running: bool,
}

/// The names of the tables.
pub open spec fn table_names(tables: Seq<Table>) -> Seq<Seq<char>> {
    tables.map_values(|t: Table| t.name@)
}

/// `after` is the table `before` but for the rows of its open buffer.
pub open spec fn same_sealed(before: Table, after: Table) -> bool {
    &&& after.name == before.name
    &&& after.frozen_buffer == before.frozen_buffer
    &&& after.partitions == before.partitions
    &&& after.next_partition_id == before.next_partition_id
}

/// `table` is a table of the name `name` that never held a row.
pub open spec fn untouched(table: Table, name: Seq<char>) -> bool {
    &&& table.name@ == name
    &&& table.frozen_buffer is None
    &&& table.partitions@.len() == 0
    &&& table.next_partition_id == 0
    &&& table.buffer.length == 0
    &&& table.buffer.columns() == Map::<Seq<char>, Seq<Value>>::empty()
}

/// `after` is the table `before` with the row `row` appended to its open
/// buffer.
pub open spec fn took_row(before: Table, after: Table, row: Seq<(Seq<char>, Seq<Value>)>) -> bool {
    &&& same_sealed(before, after)
    &&& after.buffer.length == before.buffer.length + 1
    &&& after.buffer.columns() == with_row(
        before.buffer.columns(),
        before.buffer.length as nat,
        row,
    )
}

/// `after` is the table `before` with the columns `batch` appended to its
/// open buffer.
pub open spec fn took_batch(
    before: Table,
    after: Table,
    batch: Seq<(Seq<char>, Seq<Value>)>,
) -> bool {
    &&& same_sealed(before, after)
    &&& after.buffer.length == batch_len(
        before.buffer.columns(),
        before.buffer.length as nat,
        batch,
    )
    &&& after.buffer.columns() == with_batch(
        before.buffer.columns(),
        before.buffer.length as nat,
        batch,
    )
}

/// The row that lists the table `name`, created at the time `now`, in the
/// table of tables.
pub open spec fn listing(name: Seq<char>, now: i64) -> Seq<(Seq<char>, Seq<Value>)> {
    seq![("timestamp"@, seq![Value::Int(now)]), ("name"@, seq![Value::Str(name)])]
}

impl InnerLocustDB {
    /// The tables are well formed and have distinct names, and the first of
    /// them is the table that lists the tables.
    pub open spec fn wf(&self) -> bool {
        &&& self.tables@.len() > 0
        &&& self.tables@[0].name@ == "_meta_tables"@
        &&& table_names(self.tables@).no_duplicates()
        &&& forall|i: int| 0 <= i < self.tables@.len() ==> (#[trigger] self.tables@[i]).wf()
    }

    /// The table that lists the tables has one row for every other table.
    pub open spec fn registered(&self) -> bool {
        self.tables@[0].row_count() == self.tables@.len() - 1
    }

    /// A database without user tables.
    pub fn new(opts: &Options) -> (db: InnerLocustDB)
        ensures
            db.wf(),
            db.registered(),
            db.tables@.len() == 1,
            untouched(db.tables@[0], "_meta_tables"@),
            db.opts == *opts,
            db.wal_size == 0,
            db.running,
            db.lru@.len() == 0,
    {
        let mut tables: Vec<Table> = Vec::new();
        tables.push(Table::new("_meta_tables"));
        let db = InnerLocustDB {
            tables,
            lru: Lru::new(),
            wal_size: 0,
            opts: opts.clone(),
            running: true,
        };
        assert(table_names(db.tables@) =~= seq!["_meta_tables"@]);
        db
    }

    /// The options that the database was opened with.
    pub fn opts(&self) -> (opts: &Options)
        ensures
            *opts == self.opts,
    {
        &self.opts
    }

    /// The rows of the table `table` as a query sees them, `None` if there
    /// is no such table.
    pub fn snapshot(&self, table: &str, column_filter: Option<&[String]>) -> (partitions: Option<
        Vec<crate::mem_store::partition::Partition>,
    >)
        requires
            self.wf(),
        ensures
            match partitions {
                Some(partitions) => exists|at: int|
                    0 <= at < self.tables@.len() && (#[trigger] self.tables@[at]).name@ == table@
                        && crate::mem_store::table::snapshot_of(
                        self.tables@[at],
                        column_filter,
                        partitions@,
                    ),
                None => !table_names(self.tables@).contains(table@),
            },
    {
        match self.find_table(table) {
            Some(at) => Some(self.tables[at].snapshot(column_filter)),
            None => None,
        }
    }

    /// The rows of every table as a query sees them.
    pub fn full_snapshot(&self) -> (snapshots: Vec<Vec<crate::mem_store::partition::Partition>>)
        requires
            self.wf(),
        ensures
            snapshots@.len() == self.tables@.len(),
            forall|i: int|
                0 <= i < self.tables@.len() ==> crate::mem_store::table::snapshot_of(
                    self.tables@[i],
                    None,
                    (#[trigger] snapshots@[i])@,
                ),
    {
        let mut snapshots: Vec<Vec<crate::mem_store::partition::Partition>> = Vec::with_capacity(
            self.tables.len(),
        );
        let mut i: usize = 0;
        while i < self.tables.len()
            invariant
                i <= self.tables@.len(),
                self.wf(),
                snapshots@.len() == i,
                forall|k: int|
                    0 <= k < i ==> crate::mem_store::table::snapshot_of(
                        self.tables@[k],
                        None,
                        (#[trigger] snapshots@[k])@,
                    ),
            decreases self.tables@.len() - i,
        {
            snapshots.push(self.tables[i].snapshot(None));
            i += 1;
        }
        snapshots
    }

    /// Tells the workers to stop once the tasks they execute are done.
    pub fn stop(&mut self)
        ensures
            !final(self).running,
            final(self).tables == old(self).tables,
            final(self).lru == old(self).lru,
            final(self).wal_size == old(self).wal_size,
            final(self).opts == old(self).opts,
    {
        self.running = false;
    }

    /// The position of the table `name`, if there is one.
    pub fn find_table(&self, name: &str) -> (found: Option<usize>)
        ensures
            match found {
                Some(i) => i < self.tables@.len() && self.tables@[i as int].name@ == name@,
                None => !table_names(self.tables@).contains(name@),
            },
    {
        let mut i: usize = 0;
        while i < self.tables.len()
            invariant
                i <= self.tables@.len(),
                forall|k: int| 0 <= k < i ==> table_names(self.tables@)[k] != name@,
            decreases self.tables@.len() - i,
        {
            if same_text(self.tables[i].name(), name) {
                return Some(i);
            }
            i += 1;
        }
        None
    }

    /// Creates the table `table` unless it exists, and returns the row that
    /// the table of tables has to get for it: the time `now` and the name.
    #[must_use]
    pub fn create_if_empty_no_ingest(&mut self, table: &str, now: i64) -> (row: Option<(i64, String)>)
        requires
            old(self).wf(),
        ensures
            final(self).wf(),
            final(self).lru == old(self).lru,
            final(self).wal_size == old(self).wal_size,
            final(self).opts == old(self).opts,
            final(self).running == old(self).running,
            table_names(final(self).tables@).contains(table@),
            match row {
                Some((timestamp, name)) => {
                    &&& !table_names(old(self).tables@).contains(table@)
                    &&& timestamp == now
                    &&& name@ == table@
                    &&& final(self).tables@.len() == old(self).tables@.len() + 1
                    &&& final(self).tables@.drop_last() == old(self).tables@
                    &&& untouched(final(self).tables@.last(), table@)
                    &&& final(self).tables@.last().row_count() == 0
                },
                None => table_names(old(self).tables@).contains(table@) && final(self).tables
                    == old(self).tables,
            },
    {
        match self.find_table(table) {
            Some(i) => {
                assert(table_names(self.tables@)[i as int] == table@);
                None
            },
            None => {
                let ghost before = self.tables@;
                self.tables.push(Table::new(table));
                proof {
                    assert(self.tables@.drop_last() =~= before);
                    assert(table_names(self.tables@) =~= table_names(before).push(table@));
                    assert(table_names(self.tables@)[before.len() as int] == table@);
                }
                Some((now, table.to_owned()))
            },
        }
    }

    /// Creates the table `table` unless it exists, and lists it in the table
    /// of tables with the time `now`.
    pub fn create_if_empty(&mut self, table: &str, now: i64)
        requires
            old(self).wf(),
            old(self).tables@[0].buffer.length < usize::MAX,
        ensures
            final(self).wf(),
            final(self).lru == old(self).lru,
            final(self).wal_size == old(self).wal_size,
            final(self).opts == old(self).opts,
            final(self).running == old(self).running,
            table_names(final(self).tables@).contains(table@),
            old(self).registered() ==> final(self).registered(),
            if table_names(old(self).tables@).contains(table@) {
                final(self).tables == old(self).tables
            } else {
                &&& final(self).tables@.len() == old(self).tables@.len() + 1
                &&& untouched(final(self).tables@.last(), table@)
                &&& took_row(old(self).tables@[0], final(self).tables@[0], listing(table@, now))
                &&& forall|i: int|
                    1 <= i < old(self).tables@.len() ==> #[trigger] final(self).tables@[i]
                        == old(self).tables@[i]
            },
    {
        if let Some((timestamp, name)) = self.create_if_empty_no_ingest(table, now) {
            let ghost created = self.tables@;
            let mut row: Vec<(String, RawVal)> = Vec::new();
            row.push(("timestamp".to_owned(), RawVal::Int(timestamp)));
            row.push(("name".to_owned(), RawVal::Str(name)));
            assert(row_entries(row@) =~= listing(table@, now));
            assert(created[0] == old(self).tables@[0]);
            self.tables[0].ingest(row);
            proof {
                assert(table_names(self.tables@) =~= table_names(created));
                assert forall|i: int| 1 <= i < old(self).tables@.len()
                    implies #[trigger] self.tables@[i]
                    == old(self).tables@[i] by {
                    assert(created.drop_last()[i] == created[i]);
                }
            }
        }
    }

    /// Appends one row to the table `table`, which is created if it is new.
    pub fn ingest_single(&mut self, table: &str, row: Vec<(String, RawVal)>, now: i64)
        requires
            old(self).wf(),
            forall|i: int|
                0 <= i < old(self).tables@.len() ==> (#[trigger] old(self).tables@[i]).buffer.length
                    < usize::MAX,
        ensures
            final(self).wf(),
            final(self).lru == old(self).lru,
            final(self).wal_size == old(self).wal_size,
            final(self).opts == old(self).opts,
            final(self).running == old(self).running,
            table_names(final(self).tables@).contains(table@),
            old(self).registered() && table@ != "_meta_tables"@ ==> final(self).registered(),
            forall|at: int|
                0 <= at < old(self).tables@.len() && (#[trigger] old(self).tables@[at]).name@
                    == table@ ==> {
                    &&& final(self).tables@.len() == old(self).tables@.len()
                    &&& took_row(old(self).tables@[at], final(self).tables@[at], row_entries(row@))
                    &&& forall|i: int|
                        0 <= i < old(self).tables@.len() && i != at ==> (
                        #[trigger] final(self).tables@[i]) == old(self).tables@[i]
                },
            !table_names(old(self).tables@).contains(table@) ==> {
                &&& final(self).tables@.len() == old(self).tables@.len() + 1
                &&& exists|fresh: Table| #[trigger]
                    untouched(fresh, table@)
                        && took_row(fresh, final(self).tables@.last(), row_entries(row@))
                &&& took_row(old(self).tables@[0], final(self).tables@[0], listing(table@, now))
                &&& forall|i: int|
                    1 <= i < old(self).tables@.len() ==> #[trigger] final(self).tables@[i]
                        == old(self).tables@[i]
            },
    {
        match self.find_table(table) {
            Some(at) => {
                let ghost before = self.tables@;
                assert(table_names(before)[at as int] == table@);
                self.tables[at].ingest(row);
                proof {
                    assert(table_names(self.tables@) =~= table_names(before));
                    assert(table_names(before).contains(table@));
                    assert forall|other: int|
                        0 <= other < before.len() && (#[trigger] before[other]).name@
                            == table@ implies other == at by {
                        assert(table_names(before)[other] == table_names(before)[at as int]);
                    }
                    if at != 0 {
                        assert(self.tables@[0] == before[0]);
                    }
                }
            },
            None => {
                proof {
                    assert forall|other: int|
                        0 <= other < self.tables@.len() implies (#[trigger] self.tables@[other]).name@
                        != table@ by {
                        assert(table_names(self.tables@)[other] == self.tables@[other].name@);
                    }
                }
                self.create_if_empty(table, now);
                let ghost created = self.tables@;
                let at = self.tables.len() - 1;
                assert(!table_names(old(self).tables@).contains(table@));
                assert(created[at as int] == created.last());
                assert(created[at as int].buffer.length == 0);
                self.tables[at].ingest(row);
                proof {
                    assert(table_names(self.tables@) =~= table_names(created));
                    assert(table_names(self.tables@)[at as int] == table@);
                    assert(self.tables@[0] == created[0]);
                }
            },
        }
    }

    /// Appends a batch of rows, given as typed columns, to the table
    /// `table`, which is created if it is new.
    pub fn ingest_homogeneous(&mut self, table: &str, columns: Vec<(String, InputColumn)>, now: i64)
        requires
            old(self).wf(),
            old(self).tables@[0].buffer.length < usize::MAX,
            forall|i: int| 0 <= i < columns@.len() ==> (#[trigger] columns@[i]).1.wf(),
        ensures
            final(self).wf(),
            final(self).lru == old(self).lru,
            final(self).wal_size == old(self).wal_size,
            final(self).opts == old(self).opts,
            final(self).running == old(self).running,
            table_names(final(self).tables@).contains(table@),
            old(self).registered() && table@ != "_meta_tables"@ ==> final(self).registered(),
            forall|at: int|
                0 <= at < old(self).tables@.len() && (#[trigger] old(self).tables@[at]).name@
                    == table@ ==> {
                    &&& final(self).tables@.len() == old(self).tables@.len()
                    &&& took_batch(old(self).tables@[at], final(self).tables@[at],
                        typed_entries(columns@))
                    &&& forall|i: int|
                        0 <= i < old(self).tables@.len() && i != at ==> (
                        #[trigger] final(self).tables@[i]) == old(self).tables@[i]
                },
            !table_names(old(self).tables@).contains(table@) ==> {
                &&& final(self).tables@.len() == old(self).tables@.len() + 1
                &&& exists|fresh: Table| #[trigger]
                    untouched(fresh, table@) && took_batch(
                        fresh,
                        final(self).tables@.last(),
                        typed_entries(columns@),
                    )
                &&& took_row(old(self).tables@[0], final(self).tables@[0], listing(table@, now))
                &&& forall|i: int|
                    1 <= i < old(self).tables@.len() ==> #[trigger] final(self).tables@[i]
                        == old(self).tables@[i]
            },
    {
        match self.find_table(table) {
            Some(at) => {
                let ghost before = self.tables@;
                assert(table_names(before)[at as int] == table@);
                self.tables[at].ingest_homogeneous(columns);
                proof {
                    assert(table_names(self.tables@) =~= table_names(before));
                    assert(table_names(before).contains(table@));
                    if at != 0 {
                        assert(self.tables@[0] == before[0]);
                    }
                    assert forall|other: int|
                        0 <= other < before.len() && (#[trigger] before[other]).name@
                            == table@ implies other == at by {
                        assert(table_names(before)[other] == table_names(before)[at as int]);
                    }
                }
            },
            None => {
                proof {
                    assert forall|other: int|
                        0 <= other < self.tables@.len() implies (#[trigger] self.tables@[other]).name@
                        != table@ by {
                        assert(table_names(self.tables@)[other] == self.tables@[other].name@);
                    }
                }
                self.create_if_empty(table, now);
                let ghost created = self.tables@;
                let at = self.tables.len() - 1;
                assert(!table_names(old(self).tables@).contains(table@));
                assert(created[at as int] == created.last());
                assert(created[at as int].buffer.length == 0);
                self.tables[at].ingest_homogeneous(columns);
                proof {
                    assert(table_names(self.tables@) =~= table_names(created));
                    assert(table_names(self.tables@)[at as int] == table@);
                    assert(self.tables@[0] == created[0]);
                }
            },
        }
    }

    /// Appends a batch of rows, given as untyped columns, to the table
    /// `table`, which is created if it is new.
    pub fn ingest_heterogeneous(
        &mut self,
        table: &str,
        columns: Vec<(String, Vec<RawVal>)>,
        now: i64,
    )
        requires
            old(self).wf(),
            old(self).tables@[0].buffer.length < usize::MAX,
        ensures
            final(self).wf(),
            final(self).lru == old(self).lru,
            final(self).wal_size == old(self).wal_size,
            final(self).opts == old(self).opts,
            final(self).running == old(self).running,
            table_names(final(self).tables@).contains(table@),
            old(self).registered() && table@ != "_meta_tables"@ ==> final(self).registered(),
            forall|at: int|
                0 <= at < old(self).tables@.len() && (#[trigger] old(self).tables@[at]).name@
                    == table@ ==> {
                    &&& final(self).tables@.len() == old(self).tables@.len()
                    &&& took_batch(old(self).tables@[at], final(self).tables@[at],
                        untyped_entries(columns@))
                    &&& forall|i: int|
                        0 <= i < old(self).tables@.len() && i != at ==> (
                        #[trigger] final(self).tables@[i]) == old(self).tables@[i]
                },
            !table_names(old(self).tables@).contains(table@) ==> {
                &&& final(self).tables@.len() == old(self).tables@.len() + 1
                &&& exists|fresh: Table| #[trigger]
                    untouched(fresh, table@) && took_batch(
                        fresh,
                        final(self).tables@.last(),
                        untyped_entries(columns@),
                    )
                &&& took_row(old(self).tables@[0], final(self).tables@[0], listing(table@, now))
                &&& forall|i: int|
                    1 <= i < old(self).tables@.len() ==> #[trigger] final(self).tables@[i]
                        == old(self).tables@[i]
            },
    {
        match self.find_table(table) {
            Some(at) => {
                let ghost before = self.tables@;
                assert(table_names(before)[at as int] == table@);
                self.tables[at].ingest_heterogeneous(columns);
                proof {
                    assert(table_names(self.tables@) =~= table_names(before));
                    assert(table_names(before).contains(table@));
                    if at != 0 {
                        assert(self.tables@[0] == before[0]);
                    }
                    assert forall|other: int|
                        0 <= other < before.len() && (#[trigger] before[other]).name@
                            == table@ implies other == at by {
                        assert(table_names(before)[other] == table_names(before)[at as int]);
                    }
                }
            },
            None => {
                proof {
                    assert forall|other: int|
                        0 <= other < self.tables@.len() implies (#[trigger] self.tables@[other]).name@
                        != table@ by {
                        assert(table_names(self.tables@)[other] == self.tables@[other].name@);
                    }
                }
                self.create_if_empty(table, now);
                let ghost created = self.tables@;
                let at = self.tables.len() - 1;
                assert(!table_names(old(self).tables@).contains(table@));
                assert(created[at as int] == created.last());
                assert(created[at as int].buffer.length == 0);
                self.tables[at].ingest_heterogeneous(columns);
                proof {
                    assert(table_names(self.tables@) =~= table_names(created));
                    assert(table_names(self.tables@)[at as int] == table@);
                    assert(self.tables@[0] == created[0]);
                }
            },
        }
    }
}

/// The names among `requested` that are not among `known`, each once, in
/// the order in which they are first requested.
pub open spec fn new_names(known: Seq<Seq<char>>, requested: Seq<Seq<char>>) -> Seq<Seq<char>>
    decreases requested.len(),
{
    if requested.len() == 0 {
        Seq::empty()
    } else {
        let earlier = new_names(known, requested.drop_last());
        let name = requested.last();
        if known.contains(name) || earlier.contains(name) {
            earlier
        } else {
            earlier.push(name)
        }
    }
}

/// The names of the tables of a batch.
pub open spec fn event_tables(events: Seq<(String, TableBuffer)>) -> Seq<Seq<char>> {
    events.map_values(|t: (String, TableBuffer)| t.0@)
}

/// `after` is `before` followed by tables without rows of the names `names`.
pub open spec fn opened(before: Seq<Table>, after: Seq<Table>, names: Seq<Seq<char>>) -> bool {
    &&& after.len() == before.len() + names.len()
    &&& after.take(before.len() as int) == before
    &&& forall|i: int|
        0 <= i < names.len() ==> {
            &&& (#[trigger] after[before.len() + i]).name@ == names[i]
            &&& after[before.len() + i].row_count() == 0
            &&& untouched(after[before.len() + i], names[i])
        }
}

/// `after` is the table `before` with the rows of `rows` appended to its
/// open buffer.
pub open spec fn took(before: Table, after: Table, rows: TableBuffer) -> bool {
    took_batch(before, after, column_entries(rows.len, rows.columns@))
}

/// `after` are the tables `before` with the rows of `batch`, which names
/// every table once, appended to the open buffers of their tables. Tables
/// that `batch` does not name are as they were.
pub open spec fn applied(
    before: Seq<Table>,
    after: Seq<Table>,
    batch: Seq<(String, TableBuffer)>,
) -> bool {
    &&& after.len() == before.len()
    &&& table_names(after) == table_names(before)
    &&& forall|at: int|
        0 <= at < before.len() && !event_tables(batch).contains((#[trigger] before[at]).name@)
            ==> after[at] == before[at]
    &&& forall|k: int, at: int|
        0 <= k < batch.len() && 0 <= at < before.len() && (#[trigger] before[at]).name@ == (
        #[trigger] batch[k]).0@ ==> took(before[at], after[at], batch[k].1)
}

/// The batch without its entry for the table of tables, if it has one.
pub open spec fn without_listing(given: Seq<(String, TableBuffer)>) -> Seq<(String, TableBuffer)> {
    if event_tables(given).contains("_meta_tables"@) {
        given.remove(event_tables(given).index_of("_meta_tables"@))
    } else {
        given
    }
}

/// `batch` is the batch `given` with the rows that list the tables `names`,
/// created at the time `now`, as its entry for the table of tables: they
/// stand last, in place of any such entry of `given`. Without such tables it
/// is `given`.
pub open spec fn with_listings(
    given: Seq<(String, TableBuffer)>,
    batch: Seq<(String, TableBuffer)>,
    names: Seq<Seq<char>>,
    now: i64,
) -> bool {
    if names.len() == 0 {
        batch == given
    } else {
        &&& batch.len() == without_listing(given).len() + 1
        &&& batch.drop_last() == without_listing(given)
        &&& batch.last().0@ == "_meta_tables"@
        &&& batch.last().1.len == names.len()
        &&& column_entries(batch.last().1.len, batch.last().1.columns@) == seq![
            ("timestamp"@, Seq::new(names.len(), |i: int| Value::Int(now))),
            ("name"@, names.map_values(|n: Seq<char>| Value::Str(n))),
        ]
    }
}

/// Replaying a batch as it was logged, with the rows that list its new
/// tables, creates the tables that taking it in created: what taking in a
/// batch leaves is what replaying the logged batch leaves on the tables as
/// they were before.
pub proof fn lemma_replay_restores(
    before: Seq<Table>,
    staged: Seq<Table>,
    after: Seq<Table>,
    events: Seq<(String, TableBuffer)>,
    batch: Seq<(String, TableBuffer)>,
    now: i64,
)
    requires
        before.len() > 0,
        before[0].name@ == "_meta_tables"@,
        opened(before, staged, new_names(table_names(before), event_tables(events))),
        with_listings(events, batch, new_names(table_names(before), event_tables(events)), now),
        applied(staged, after, batch),
    ensures
        new_names(table_names(before), event_tables(batch)) == new_names(
            table_names(before),
            event_tables(events),
        ),
        opened(before, staged, new_names(table_names(before), event_tables(batch))),
        applied(staged, after, batch),
{
    let known = table_names(before);
    assert(known[0] == "_meta_tables"@);
    lemma_listed_names(known, events, batch, now);
}

/// Asking once less for a name that is known asks for the same new names.
pub proof fn lemma_new_names_remove(known: Seq<Seq<char>>, requested: Seq<Seq<char>>, p: int)
    requires
        0 <= p < requested.len(),
        known.contains(requested[p]),
    ensures
        new_names(known, requested.remove(p)) == new_names(known, requested),
    decreases requested.len(),
{
    if p == requested.len() - 1 {
        assert(requested.remove(p) =~= requested.drop_last());
    } else {
        assert(requested.remove(p).drop_last() =~= requested.drop_last().remove(p));
        assert(requested.remove(p).last() == requested.last());
        lemma_new_names_remove(known, requested.drop_last(), p);
    }
}

/// The rows that list new tables stand for the same new tables: a batch
/// with its listing asks for the new tables that the batch without it asks
/// for.
pub proof fn lemma_listed_names(
    known: Seq<Seq<char>>,
    events: Seq<(String, TableBuffer)>,
    batch: Seq<(String, TableBuffer)>,
    now: i64,
)
    requires
        known.contains("_meta_tables"@),
        with_listings(events, batch, new_names(known, event_tables(events)), now),
    ensures
        new_names(known, event_tables(batch)) == new_names(known, event_tables(events)),
{
    if new_names(known, event_tables(events)).len() > 0 {
        let kept = without_listing(events);
        assert(event_tables(batch).drop_last() =~= event_tables(kept));
        assert(event_tables(batch).last() == "_meta_tables"@);
        if event_tables(events).contains("_meta_tables"@) {
            let p = event_tables(events).index_of("_meta_tables"@);
            assert(event_tables(kept) =~= event_tables(events).remove(p));
            lemma_new_names_remove(known, event_tables(events), p);
        }
    }
}

/// A batch whose tables all exist asks for no new table.
pub proof fn lemma_no_new_names(known: Seq<Seq<char>>, requested: Seq<Seq<char>>)
    requires
        forall|i: int| 0 <= i < requested.len() ==> known.contains(#[trigger] requested[i]),
    ensures
        new_names(known, requested) == Seq::<Seq<char>>::empty(),
    decreases requested.len(),
{
    if requested.len() > 0 {
        assert forall|i: int| 0 <= i < requested.drop_last().len() implies known.contains(
            #[trigger] requested.drop_last()[i],
        ) by {
            assert(requested.drop_last()[i] == requested[i]);
        }
        lemma_no_new_names(known, requested.drop_last());
        assert(known.contains(requested[requested.len() - 1]));
    }
}

/// The table of tables keeps step: where it has one row for every other
/// table, it has so after a batch was taken in with the rows that list its
/// new tables. The one batch on which this fails is a batch without new
/// tables that holds rows for the table of tables itself.
pub proof fn lemma_listing_keeps_registered(
    before: Seq<Table>,
    staged: Seq<Table>,
    after: Seq<Table>,
    events: Seq<(String, TableBuffer)>,
    batch: Seq<(String, TableBuffer)>,
    now: i64,
)
    requires
        before.len() > 0,
        before[0].name@ == "_meta_tables"@,
        before[0].wf(),
        before[0].row_count() == before.len() - 1,
        opened(before, staged, new_names(table_names(before), event_tables(events))),
        with_listings(events, batch, new_names(table_names(before), event_tables(events)), now),
        applied(staged, after, batch),
        new_names(table_names(before), event_tables(events)).len() > 0 || !event_tables(
            events,
        ).contains("_meta_tables"@),
    ensures
        after[0].row_count() == after.len() - 1,
{
    let listed = new_names(table_names(before), event_tables(events));
    let count = listed.len();
    assert(staged[0] == staged.take(before.len() as int)[0]);
    if count == 0 {
        assert(!event_tables(batch).contains(staged[0].name@));
        assert(after[0] == staged[0]);
    } else {
        let last = batch.len() - 1;
        let names = event_tables(batch);
        assert(batch.len() > 0);
        assert(batch[last] == batch.last());
        assert(names[last] == "_meta_tables"@);
        assert(staged[0].name@ == batch[last].0@);
        let entries = column_entries(batch[last].1.len, batch[last].1.columns@);
        let base = staged[0].buffer.columns();
        let len = staged[0].buffer.length as nat;
        let filled = with_columns(base, len, entries);
        reveal_strlit("timestamp");
        reveal_strlit("name");
        assert("timestamp"@ != "name"@) by {
            assert("timestamp"@.len() == 9);
            assert("name"@.len() == 4);
        }
        assert(entries.drop_last() =~= seq![entries[0]]);
        assert(entries.drop_last().drop_last() =~= Seq::<
            (Seq<char>, Seq<Value>),
        >::empty());
        let none = Seq::<(Seq<char>, Seq<Value>)>::empty();
        assert(entries.len() == 2);
        assert(entries[0] == (
            "timestamp"@,
            Seq::new(count as nat, |i: int| Value::Int(now)),
        ));
        assert(entries[1].0 == "name"@ && entries[1].1.len() == count);
        assert(entries.last() == entries[1]);
        assert(entries.drop_last().last() == entries[0]);
        assert(appended_len(none, "timestamp"@) == 0);
        assert(appended_len(none, "name"@) == 0);
        assert(appended_len(entries.drop_last(), "timestamp"@) == count);
        assert(appended_len(entries.drop_last(), "name"@) == 0);
        assert(appended_len(entries, "timestamp"@) == count);
        assert(appended_len(entries, "name"@) == count);
        lemma_with_columns_len(base, len, entries, "timestamp"@);
        lemma_with_columns_len(base, len, entries, "name"@);
        assert(names_of(entries) =~= seq!["timestamp"@, "name"@]);
        assert(names_of(entries).contains("timestamp"@)) by {
            assert(names_of(entries)[0] == "timestamp"@);
        }
        assert(names_of(entries).contains("name"@)) by {
            assert(names_of(entries)[1] == "name"@);
        }
        assert(names_of(entries).drop_last() =~= seq!["timestamp"@]);
        assert(names_of(entries).drop_last().drop_last() =~= Seq::<Seq<char>>::empty());
        assert(all_have_len(base, len));
        assert(filled.dom().contains("timestamp"@) && filled.dom().contains("name"@));
        assert(filled["timestamp"@].len() == len + count);
        assert(filled["name"@].len() == len + count);
        assert(names_of(entries).last() == "name"@);
        assert(names_of(entries).drop_last().last() == "timestamp"@);
        assert(longest(filled, Seq::<Seq<char>>::empty()) == 0);
        assert(longest(filled, names_of(entries).drop_last()) == len + count);
        assert(longest(filled, names_of(entries)) == len + count);
        assert(after[0].buffer.length == len + count);
        assert(after[0].row_count() == staged[0].row_count() + count);
    }
}

/// Two tables of one name hold the same rows in their open buffers.
pub open spec fn same_open_rows(a: Table, b: Table) -> bool {
    &&& a.name@ == b.name@
    &&& a.buffer.length == b.buffer.length
    &&& a.buffer.columns() == b.buffer.columns()
}

/// Two databases have the same tables with the same rows in their open
/// buffers.
pub open spec fn alike(a: Seq<Table>, b: Seq<Table>) -> bool {
    &&& a.len() == b.len()
    &&& forall|i: int| 0 <= i < a.len() ==> same_open_rows(a[i], #[trigger] b[i])
}

/// `end` are the tables `start` after the batches `segments` of the
/// write-ahead log were replayed, one after the other.
pub open spec fn replayed(start: Seq<Table>, segments: Seq<EventBuffer>, end: Seq<Table>) -> bool
    decreases segments.len(),
{
    if segments.len() == 0 {
        end == start
    } else {
        exists|mid: Seq<Table>, opened_tables: Seq<Table>|
            {
                &&& replayed(start, segments.drop_last(), mid)
                &&& #[trigger] opened(
                    mid,
                    opened_tables,
                    new_names(table_names(mid), event_tables(segments.last().tables@)),
                )
                &&& applied(opened_tables, end, segments.last().tables@)
            }
    }
}

/// New names are new: with the names that are new among those asked for,
/// distinct names stay distinct, and every name asked for is there.
pub proof fn lemma_new_names_distinct(known: Seq<Seq<char>>, requested: Seq<Seq<char>>)
    requires
        known.no_duplicates(),
    ensures
        (known + new_names(known, requested)).no_duplicates(),
        forall|i: int|
            0 <= i < requested.len() ==> (known + new_names(known, requested)).contains(
                #[trigger] requested[i],
            ),
    decreases requested.len(),
{
    if requested.len() > 0 {
        let front = requested.drop_last();
        let earlier = new_names(known, front);
        let name = requested.last();
        lemma_new_names_distinct(known, front);
        let all = known + new_names(known, requested);
        if known.contains(name) || earlier.contains(name) {
            assert(all =~= known + earlier);
            if known.contains(name) {
                let p = known.index_of(name);
                assert(all[p] == name);
            } else {
                let p = earlier.index_of(name);
                assert(all[known.len() + p] == name);
            }
        } else {
            assert(all =~= (known + earlier).push(name));
            assert forall|x: int, y: int| 0 <= x < all.len() && 0 <= y < all.len() && x != y
                implies all[x] != all[y] by {
                let last = all.len() - 1;
                if x < last && y < last {
                    assert((known + earlier)[x] != (known + earlier)[y]);
                } else {
                    let z = if x < last {
                        x
                    } else {
                        y
                    };
                    if z < known.len() {
                        assert(known[z] == all[z]);
                        assert(known.contains(all[z]));
                    } else {
                        assert(earlier[z - known.len()] == all[z]);
                        assert(earlier.contains(all[z]));
                    }
                }
            }
            assert(all[all.len() - 1] == name);
        }
        assert forall|i: int| 0 <= i < requested.len() implies all.contains(
            #[trigger] requested[i],
        ) by {
            if i < front.len() {
                assert(front[i] == requested[i]);
                let p = (known + earlier).index_of(requested[i]);
                assert(all[p] == requested[i]);
            }
        }
    }
}

/// Replaying a batch is determined by the rows in the open buffers: on
/// databases that are alike, it leaves databases that are alike.
pub proof fn lemma_replay_determined(
    a: Seq<Table>,
    a_opened: Seq<Table>,
    a_end: Seq<Table>,
    b: Seq<Table>,
    b_opened: Seq<Table>,
    b_end: Seq<Table>,
    batch: Seq<(String, TableBuffer)>,
)
    requires
        alike(a, b),
        table_names(a).no_duplicates(),
        event_tables(batch).no_duplicates(),
        opened(a, a_opened, new_names(table_names(a), event_tables(batch))),
        opened(b, b_opened, new_names(table_names(b), event_tables(batch))),
        applied(a_opened, a_end, batch),
        applied(b_opened, b_end, batch),
    ensures
        alike(a_end, b_end),
        table_names(a_end).no_duplicates(),
{
    assert(table_names(a) =~= table_names(b));
    let names = new_names(table_names(a), event_tables(batch));
    lemma_new_names_distinct(table_names(a), event_tables(batch));
    assert(table_names(a_opened) =~= table_names(a) + names) by {
        assert forall|i: int| 0 <= i < a_opened.len() implies table_names(a_opened)[i] == (
        table_names(a) + names)[i] by {
            if i < a.len() {
                assert(a_opened.take(a.len() as int)[i] == a_opened[i]);
            } else {
                assert(a_opened[a.len() + (i - a.len())].name@ == names[i - a.len()]);
            }
        }
    }
    assert forall|i: int| 0 <= i < a_opened.len() implies same_open_rows(
        a_opened[i],
        #[trigger] b_opened[i],
    ) by {
        if i < a.len() {
            assert(a_opened.take(a.len() as int)[i] == a_opened[i]);
            assert(b_opened.take(b.len() as int)[i] == b_opened[i]);
            assert(same_open_rows(a[i], b[i]));
        } else {
            assert(untouched(a_opened[a.len() + (i - a.len())], names[i - a.len()]));
            assert(untouched(b_opened[b.len() + (i - a.len())], names[i - a.len()]));
        }
    }
    assert forall|at: int| 0 <= at < a_end.len() implies same_open_rows(
        a_end[at],
        #[trigger] b_end[at],
    ) by {
        assert(same_open_rows(a_opened[at], b_opened[at]));
        assert(table_names(a_end)[at] == table_names(a_opened)[at]);
        assert(table_names(b_end)[at] == table_names(b_opened)[at]);
        if event_tables(batch).contains(a_opened[at].name@) {
            let k = event_tables(batch).index_of(a_opened[at].name@);
            assert(batch[k].0@ == a_opened[at].name@);
            assert(took(a_opened[at], a_end[at], batch[k].1));
            assert(took(b_opened[at], b_end[at], batch[k].1));
        } else {
            assert(a_end[at] == a_opened[at]);
            assert(b_end[at] == b_opened[at]);
        }
    }
}

/// A restart finds the rows that were logged: replaying the batches of the
/// write-ahead log on a database that is like the one they were taken in
/// by leaves a database that is like the one that took them in. Every batch
/// whose ingestion returned is in the log, so its rows are found; a batch
/// whose write failed is not, and reached no buffer either.
pub proof fn lemma_restart_finds_rows(
    start_a: Seq<Table>,
    start_b: Seq<Table>,
    segments: Seq<EventBuffer>,
    end_a: Seq<Table>,
    end_b: Seq<Table>,
)
    requires
        alike(start_a, start_b),
        table_names(start_a).no_duplicates(),
        forall|i: int| 0 <= i < segments.len() ==> (#[trigger] segments[i]).wf(),
        replayed(start_a, segments, end_a),
        replayed(start_b, segments, end_b),
    ensures
        alike(end_a, end_b),
        table_names(end_a).no_duplicates(),
    decreases segments.len(),
{
    if segments.len() > 0 {
        let front = segments.drop_last();
        let batch = segments.last().tables@;
        let (mid_a, opened_a) = choose|mid: Seq<Table>, opened_tables: Seq<Table>|
            {
                &&& replayed(start_a, front, mid)
                &&& #[trigger] opened(
                    mid,
                    opened_tables,
                    new_names(table_names(mid), event_tables(batch)),
                )
                &&& applied(opened_tables, end_a, batch)
            };
        let (mid_b, opened_b) = choose|mid: Seq<Table>, opened_tables: Seq<Table>|
            {
                &&& replayed(start_b, front, mid)
                &&& #[trigger] opened(
                    mid,
                    opened_tables,
                    new_names(table_names(mid), event_tables(batch)),
                )
                &&& applied(opened_tables, end_b, batch)
            };
        assert forall|i: int| 0 <= i < front.len() implies (#[trigger] front[i]).wf() by {
            assert(front[i] == segments[i]);
        }
        lemma_restart_finds_rows(start_a, start_b, front, mid_a, mid_b);
        assert(segments[segments.len() - 1].wf());
        lemma_replay_determined(mid_a, opened_a, end_a, mid_b, opened_b, end_b, batch);
    }
}

/// What the workers that flush the write-ahead log do next.
#[derive(Debug, Clone, Copy, PartialEq, Eq, Structural)]
pub enum WalLimitAction {
    /// The log is over its limit: flush it.
    Flush,
    /// Look again after this many milliseconds.
    Sleep(u64),
}

impl EventBuffer {
    /// The batch names every table once, and the rows of every table are
    /// well formed.
    pub open spec fn wf(&self) -> bool {
        &&& event_tables(self.tables@).no_duplicates()
        &&& forall|i: int| 0 <= i < self.tables@.len() ==> (#[trigger] self.tables@[i]).1.wf()
    }

    /// The position of the rows of the table `name`, if the batch has any.
    pub fn find(&self, name: &str) -> (found: Option<usize>)
        ensures
            match found {
                Some(i) => i < self.tables@.len() && event_tables(self.tables@)[i as int] == name@,
                None => !event_tables(self.tables@).contains(name@),
            },
    {
        let mut i: usize = 0;
        while i < self.tables.len()
            invariant
                i <= self.tables@.len(),
                forall|k: int| 0 <= k < i ==> event_tables(self.tables@)[k] != name@,
            decreases self.tables@.len() - i,
        {
            if same_text(self.tables[i].0.as_str(), name) {
                return Some(i);
            }
            i += 1;
        }
        None
    }

    /// Whether the batch is well formed.
    pub fn is_valid(&self) -> (valid: bool)
        ensures
            valid == self.wf(),
    {
        let ghost names = event_tables(self.tables@);
        let mut i: usize = 0;
        while i < self.tables.len()
            invariant
                i <= self.tables@.len(),
                names == event_tables(self.tables@),
                forall|k: int| 0 <= k < i ==> (#[trigger] self.tables@[k]).1.wf(),
                forall|a: int, b: int| 0 <= a < b < i ==> names[a] != names[b],
            decreases self.tables@.len() - i,
        {
            if !self.tables[i].1.is_valid() {
                return false;
            }
            let mut j: usize = 0;
            while j < i
                invariant
                    j <= i < self.tables@.len(),
                    names == event_tables(self.tables@),
                    forall|a: int| 0 <= a < j ==> names[a] != names[i as int],
                decreases i - j,
            {
                if same_text(self.tables[j].0.as_str(), self.tables[i].0.as_str()) {
                    assert(names[j as int] == names[i as int]);
                    return false;
                }
                j += 1;
            }
            i += 1;
        }
        true
    }
}

impl InnerLocustDB {
    /// Whether ingestion has to wait for a flush of the write-ahead log.
    pub fn ingestion_blocked(&self) -> (blocked: bool)
        ensures
            blocked == (self.wal_size > self.opts.max_wal_size_bytes),
    {
        self.wal_size > self.opts.max_wal_size_bytes
    }

    /// Counts `bytes_written` bytes that were appended to the write-ahead log.
    pub fn record_wal_bytes(&mut self, bytes_written: u64)
        ensures
            final(self).wal_size == if old(self).wal_size + bytes_written > u64::MAX {
                u64::MAX
            } else {
                (old(self).wal_size + bytes_written) as u64
            },
            final(self).tables == old(self).tables,
            final(self).lru == old(self).lru,
            final(self).opts == old(self).opts,
            final(self).running == old(self).running,
    {
        self.wal_size = if self.wal_size > u64::MAX - bytes_written {
            u64::MAX
        } else {
            self.wal_size + bytes_written
        };
    }

    /// What the thread that watches the write-ahead log does next.
    pub fn enforce_wal_limit(&self) -> (action: WalLimitAction)
        ensures
            action == if self.wal_size > self.opts.max_wal_size_bytes {
                WalLimitAction::Flush
            } else {
                WalLimitAction::Sleep(1000)
            },
    {
        if self.wal_size > self.opts.max_wal_size_bytes {
            WalLimitAction::Flush
        } else {
            WalLimitAction::Sleep(1000)
        }
    }

    /// Creates the tables of `events` that do not exist yet, and returns for
    /// each the time `now` and its name, in the order in which the names
    /// first occur in `events`.
    fn create_tables(&mut self, events: &EventBuffer, now: i64) -> (rows: (Vec<i64>, Vec<String>))
        requires
            old(self).wf(),
        ensures
            final(self).wf(),
            final(self).lru == old(self).lru,
            final(self).wal_size == old(self).wal_size,
            final(self).opts == old(self).opts,
            final(self).running == old(self).running,
            rows.0@ == Seq::new(rows.1@.len(), |i: int| now),
            rows.1@.map_values(|n: String| n@) == new_names(
                table_names(old(self).tables@),
                event_tables(events.tables@),
            ),
            opened(old(self).tables@, final(self).tables@, rows.1@.map_values(|n: String| n@)),
            table_names(final(self).tables@) == table_names(old(self).tables@) + new_names(
                table_names(old(self).tables@),
                event_tables(events.tables@),
            ),
            forall|i: int|
                0 <= i < events.tables@.len() ==> table_names(final(self).tables@).contains(
                    #[trigger] event_tables(events.tables@)[i],
                ),
    {
        let mut timestamps: Vec<i64> = Vec::new();
        let mut names: Vec<String> = Vec::new();
        let ghost known = table_names(self.tables@);
        let ghost requested = event_tables(events.tables@);
        let mut k: usize = 0;
        assert(requested.take(0) =~= Seq::<Seq<char>>::empty());
        assert(self.tables@.take(self.tables@.len() as int) =~= self.tables@);
        assert(table_names(self.tables@) =~= known + new_names(known, requested.take(0)));
        while k < events.tables.len()
            invariant
                k <= events.tables@.len(),
                requested == event_tables(events.tables@),
                known == table_names(old(self).tables@),
                self.wf(),
                self.lru == old(self).lru,
                self.wal_size == old(self).wal_size,
                self.opts == old(self).opts,
                self.running == old(self).running,
                self.tables@.len() >= old(self).tables@.len(),
                self.tables@.take(old(self).tables@.len() as int) == old(self).tables@,
                table_names(self.tables@) == known + new_names(known, requested.take(k as int)),
                forall|i: int|
                    old(self).tables@.len() <= i < self.tables@.len() ==> (
                    #[trigger] self.tables@[i]).row_count() == 0 && untouched(
                        self.tables@[i],
                        self.tables@[i].name@,
                    ),
                forall|i: int|
                    0 <= i < k ==> table_names(self.tables@).contains(#[trigger] requested[i]),
                timestamps@ == Seq::new(names@.len(), |i: int| now),
                names@.map_values(|n: String| n@) == new_names(known, requested.take(k as int)),
            decreases events.tables@.len() - k,
        {
            let ghost tables_before = self.tables@;
            let ghost earlier = new_names(known, requested.take(k as int));
            proof {
                assert(requested.take(k + 1).drop_last() =~= requested.take(k as int));
                assert(requested.take(k + 1).last() == requested[k as int]);
                assert(requested[k as int] == events.tables@[k as int].0@);
            }
            if let Some((timestamp, name)) = self.create_if_empty_no_ingest(
                events.tables[k].0.as_str(),
                now,
            ) {
                let ghost listed = names@.map_values(|n: String| n@);
                timestamps.push(timestamp);
                names.push(name);
                proof {
                    assert(names@.map_values(|n: String| n@) =~= listed.push(requested[k as int]));
                    assert(timestamps@ =~= Seq::new(names@.len(), |i: int| now));
                    assert(!table_names(tables_before).contains(requested[k as int]));
                    assert(!known.contains(requested[k as int]) && !earlier.contains(
                        requested[k as int],
                    )) by {
                        if known.contains(requested[k as int]) {
                            let i = known.index_of(requested[k as int]);
                            assert(table_names(tables_before)[i] == requested[k as int]);
                        }
                        if earlier.contains(requested[k as int]) {
                            let i = earlier.index_of(requested[k as int]);
                            assert(table_names(tables_before)[known.len() + i]
                                == requested[k as int]);
                        }
                    }
                    assert(table_names(self.tables@) =~= table_names(tables_before).push(
                        requested[k as int],
                    ));
                    assert(self.tables@.take(old(self).tables@.len() as int) =~= tables_before.take(
                        old(self).tables@.len() as int,
                    ));
                    assert forall|i: int|
                        old(self).tables@.len() <= i < self.tables@.len() implies (
                    #[trigger] self.tables@[i]).row_count() == 0 && untouched(
                        self.tables@[i],
                        self.tables@[i].name@,
                    ) by {
                        if i < tables_before.len() {
                            assert(self.tables@.drop_last()[i] == tables_before[i]);
                        }
                    }
                    assert forall|i: int| 0 <= i < k + 1 implies table_names(self.tables@).contains(
                        #[trigger] requested[i],
                    ) by {
                        if i < k {
                            let j = table_names(tables_before).index_of(requested[i]);
                            assert(table_names(self.tables@)[j] == requested[i]);
                        }
                    }
                }
            } else {
                proof {
                    let i = table_names(tables_before).index_of(requested[k as int]);
                    assert(table_names(tables_before)[i] == requested[k as int]);
                    if i < known.len() {
                        assert(known.contains(requested[k as int]));
                    } else {
                        assert(earlier[i - known.len()] == requested[k as int]);
                        assert(earlier.contains(requested[k as int]));
                    }
                }
            }
            k += 1;
        }
        assert(requested.take(k as int) =~= requested);
        proof {
            assert(table_names(self.tables@).len() == self.tables@.len());
            assert(table_names(old(self).tables@).len() == old(self).tables@.len());
            assert(names@.map_values(|n: String| n@).len() == names@.len());
        }
        proof {
            let listed = names@.map_values(|n: String| n@);
            assert forall|i: int| 0 <= i < listed.len() implies (
            #[trigger] self.tables@[old(self).tables@.len() + i]).name@ == listed[i] && untouched(
                self.tables@[old(self).tables@.len() + i],
                listed[i],
            ) by {
                assert(table_names(self.tables@)[old(self).tables@.len() + i] == listed[i]);
            }
        }
        (timestamps, names)
    }

    /// The names of the tables of `events` that do not exist yet, each once,
    /// in the order in which they first occur in `events`.
    pub fn new_table_names(&self, events: &EventBuffer) -> (names: Vec<String>)
        ensures
            names@.map_values(|n: String| n@) == new_names(
                table_names(self.tables@),
                event_tables(events.tables@),
            ),
    {
        let mut names: Vec<String> = Vec::new();
        let ghost known = table_names(self.tables@);
        let ghost requested = event_tables(events.tables@);
        let mut k: usize = 0;
        assert(requested.take(0) =~= Seq::<Seq<char>>::empty());
        assert(names@.map_values(|n: String| n@) =~= new_names(known, requested.take(0)));
        while k < events.tables.len()
            invariant
                k <= events.tables@.len(),
                requested == event_tables(events.tables@),
                known == table_names(self.tables@),
                names@.map_values(|n: String| n@) == new_names(known, requested.take(k as int)),
            decreases events.tables@.len() - k,
        {
            let name = events.tables[k].0.as_str();
            let ghost earlier = names@.map_values(|n: String| n@);
            proof {
                assert(requested.take(k + 1).drop_last() =~= requested.take(k as int));
                assert(requested.take(k + 1).last() == requested[k as int]);
                assert(requested[k as int] == name@);
            }
            let mut seen = self.find_table(name).is_some();
            proof {
                if seen {
                    let at = choose|at: int|
                        0 <= at < self.tables@.len() && (#[trigger] self.tables@[at]).name@
                            == name@;
                    assert(known[at] == name@);
                }
            }
            let mut i: usize = 0;
            while !seen && i < names.len()
                invariant
                    i <= names@.len(),
                    earlier == names@.map_values(|n: String| n@),
                    !seen ==> forall|x: int| 0 <= x < i ==> earlier[x] != name@,
                    !seen ==> !known.contains(name@),
                    seen ==> known.contains(name@) || earlier.contains(name@),
                decreases names@.len() - i + if seen {
                    0int
                } else {
                    1int
                },
            {
                if same_text(names[i].as_str(), name) {
                    assert(earlier[i as int] == name@);
                    seen = true;
                } else {
                    i += 1;
                }
            }
            if !seen {
                names.push(name.to_owned());
                assert(names@.map_values(|n: String| n@) =~= earlier.push(name@));
            }
            k += 1;
        }
        assert(requested.take(k as int) =~= requested);
        names
    }

    /// Adds to `events` the rows that list, with the time `now`, the tables
    /// of `events` that do not exist yet. These rows replace rows that
    /// `events` may have for the table of tables. The new tables themselves
    /// are created when the batch reaches the buffers. Returns the number of
    /// new tables.
    pub fn list_new_tables(&self, events: &mut EventBuffer, now: i64) -> (listed: usize)
        requires
            self.wf(),
            old(events).wf(),
        ensures
            final(events).wf(),
            listed == new_names(
                table_names(self.tables@),
                event_tables(old(events).tables@),
            ).len(),
            with_listings(
                old(events).tables@,
                final(events).tables@,
                new_names(table_names(self.tables@), event_tables(old(events).tables@)),
                now,
            ),
    {
        let ghost requested = event_tables(events.tables@);
        let names = self.new_table_names(events);
        let created = names.len();
        let mut timestamps: Vec<i64> = Vec::with_capacity(created);
        let mut t: usize = 0;
        while t < created
            invariant
                t <= created,
                timestamps@ == Seq::new(t as nat, |i: int| now),
            decreases created - t,
        {
            timestamps.push(now);
            assert(timestamps@ =~= Seq::new((t + 1) as nat, |i: int| now));
            t += 1;
        }
        proof {
            assert(names@.map_values(|n: String| n@).len() == names@.len());
        }
        if created > 0 {
            let len = timestamps.len() as u64;
            let ghost listed = names@.map_values(|n: String| n@);
            let mut columns: Vec<(String, ColumnData)> = Vec::new();
            columns.push(("timestamp".to_owned(), ColumnData::I64(timestamps)));
            columns.push(("name".to_owned(), ColumnData::String(names)));
            let meta_tables_buffer = TableBuffer { len, columns };
            let ghost given = events.tables@;
            if let Some(at) = events.find("_meta_tables") {
                assert(event_tables(given).index_of("_meta_tables"@) == at) by {
                    let p = event_tables(given).index_of("_meta_tables"@);
                    assert(event_tables(given)[p] == event_tables(given)[at as int]);
                }
                let _ = events.tables.remove(at);
            }
            let ghost before = events.tables@;
            proof {
                assert(before == without_listing(given));
                assert forall|i: int| 0 <= i < before.len() implies event_tables(before)[i]
                    != "_meta_tables"@ && requested.contains(#[trigger] event_tables(before)[i])
                    && (#[trigger] before[i]).1.wf() by {
                    if event_tables(given).contains("_meta_tables"@) {
                        let p = event_tables(given).index_of("_meta_tables"@);
                        let j = if i < p {
                            i
                        } else {
                            i + 1
                        };
                        assert(before[i] == given[j]);
                        assert(event_tables(given)[j] != event_tables(given)[p]);
                        assert(requested[j] == event_tables(before)[i]);
                    } else {
                        assert(requested[i] == event_tables(before)[i]);
                    }
                }
                assert(event_tables(before).no_duplicates()) by {
                    assert forall|a: int, b: int|
                        0 <= a < before.len() && 0 <= b < before.len() && a != b
                        implies event_tables(before)[a] != event_tables(before)[b] by {
                        if event_tables(given).contains("_meta_tables"@) {
                            let p = event_tables(given).index_of("_meta_tables"@);
                            let x = if a < p {
                                a
                            } else {
                                a + 1
                            };
                            let y = if b < p {
                                b
                            } else {
                                b + 1
                            };
                            assert(before[a] == given[x] && before[b] == given[y]);
                            assert(event_tables(given)[x] != event_tables(given)[y]);
                        }
                    }
                }
            }
            proof {
                assert(column_entries(len, columns@) =~= seq![
                    ("timestamp"@, Seq::new(created as nat, |i: int| Value::Int(now))),
                    ("name"@, listed.map_values(|n: Seq<char>| Value::Str(n))),
                ]) by {
                    assert(columns@[0].1.rows(len) =~= Seq::new(
                        created as nat,
                        |i: int| Value::Int(now),
                    ));
                    assert(columns@[1].1.rows(len) =~= listed.map_values(
                        |n: Seq<char>| Value::Str(n),
                    ));
                }
            }
            events.tables.push(("_meta_tables".to_owned(), meta_tables_buffer));
            proof {
                assert(events.tables@.drop_last() =~= before);
                assert(event_tables(events.tables@) =~= event_tables(before).push(
                    "_meta_tables"@,
                ));
            }
        }
        created
    }

    /// Takes in a batch of events that was taken in and written to the
    /// write-ahead log before: creates the tables that are missing and
    /// appends the rows of the batch to the open buffers of their tables.
    /// The rows that list new tables in the table of tables are part of
    /// such a batch.
    pub fn replay(&mut self, events: EventBuffer)
        requires
            old(self).wf(),
            events.wf(),
        ensures
            final(self).wf(),
            final(self).lru == old(self).lru,
            final(self).wal_size == old(self).wal_size,
            final(self).opts == old(self).opts,
            final(self).running == old(self).running,
            exists|staged: Seq<Table>|
                {
                    &&& #[trigger] opened(
                        old(self).tables@,
                        staged,
                        new_names(table_names(old(self).tables@), event_tables(events.tables@)),
                    )
                    &&& applied(staged, final(self).tables@, events.tables@)
                },
    {
        let _ = self.create_tables(&events, 0);
        let ghost staged = self.tables@;
        self.apply_events(events);
        assert(applied(staged, self.tables@, events.tables@));
    }

    /// Replays the batches of the write-ahead log that no partition holds
    /// yet, the oldest first, as a restart does.
    pub fn replay_all(&mut self, segments: Vec<EventBuffer>)
        requires
            old(self).wf(),
            forall|i: int| 0 <= i < segments@.len() ==> (#[trigger] segments@[i]).wf(),
        ensures
            final(self).wf(),
            final(self).lru == old(self).lru,
            final(self).wal_size == old(self).wal_size,
            final(self).opts == old(self).opts,
            final(self).running == old(self).running,
            replayed(old(self).tables@, segments@, final(self).tables@),
    {
        let mut segments = segments;
        let ghost all = segments@;
        let mut i: usize = 0;
        assert(all.take(0) =~= Seq::<EventBuffer>::empty());
        while i < segments.len()
            invariant
                i <= all.len(),
                segments@.len() == all.len(),
                forall|k: int| 0 <= k < all.len() ==> (#[trigger] all[k]).wf(),
                forall|k: int| i <= k < all.len() ==> #[trigger] segments@[k] == all[k],
                self.wf(),
                self.lru == old(self).lru,
                self.wal_size == old(self).wal_size,
                self.opts == old(self).opts,
                self.running == old(self).running,
                replayed(old(self).tables@, all.take(i as int), self.tables@),
            decreases all.len() - i,
        {
            let mut events = EventBuffer { tables: Vec::new() };
            let ghost rest = segments@;
            core::mem::swap(&mut events, &mut segments[i]);
            let ghost before = self.tables@;
            proof {
                assert forall|k: int| i + 1 <= k < all.len() implies #[trigger] segments@[k]
                    == all[k] by {
                    assert(rest[k] == all[k]);
                }
                assert(events == all[i as int]);
                assert(all.take(i + 1).drop_last() =~= all.take(i as int));
                assert(all.take(i + 1).last() == all[i as int]);
            }
            self.replay(events);
            i += 1;
        }
        assert(all.take(i as int) =~= all);
    }

    /// Appends the rows of `events` to the open buffers of their tables,
    /// which must exist.
    pub fn apply_events(&mut self, events: EventBuffer)
        requires
            old(self).wf(),
            events.wf(),
            forall|i: int|
                0 <= i < events.tables@.len() ==> table_names(old(self).tables@).contains(
                    #[trigger] event_tables(events.tables@)[i],
                ),
        ensures
            final(self).wf(),
            final(self).lru == old(self).lru,
            final(self).wal_size == old(self).wal_size,
            final(self).opts == old(self).opts,
            final(self).running == old(self).running,
            applied(old(self).tables@, final(self).tables@, events.tables@),
    {
        let mut tables = events.tables;
        let ghost all = tables@;
        let ghost names = event_tables(all);
        let mut k: usize = 0;
        while k < tables.len()
            invariant
                k <= all.len(),
                tables@.len() == all.len(),
                all == events.tables@,
                names == event_tables(all),
                forall|i: int| 0 <= i < all.len() ==> (#[trigger] all[i]).1.wf(),
                forall|i: int| k <= i < all.len() ==> #[trigger] tables@[i] == all[i],
                forall|i: int|
                    0 <= i < all.len() ==> table_names(old(self).tables@).contains(
                        #[trigger] names[i],
                    ),
                self.wf(),
                self.lru == old(self).lru,
                self.wal_size == old(self).wal_size,
                self.opts == old(self).opts,
                self.running == old(self).running,
                table_names(self.tables@) == table_names(old(self).tables@),
                forall|at: int|
                    0 <= at < old(self).tables@.len() && !names.take(k as int).contains(
                        (#[trigger] old(self).tables@[at]).name@,
                    ) ==> self.tables@[at] == old(self).tables@[at],
                names.no_duplicates(),
                forall|j: int, at: int|
                    0 <= j < k && 0 <= at < old(self).tables@.len() && (
                    #[trigger] old(self).tables@[at]).name@ == (#[trigger] all[j]).0@ ==> took(
                        old(self).tables@[at],
                        self.tables@[at],
                        all[j].1,
                    ),
            decreases all.len() - k,
        {
            let mut entry = (String::new(), TableBuffer { len: 0, columns: Vec::new() });
            let ghost rest = tables@;
            core::mem::swap(&mut entry, &mut tables[k]);
            proof {
                assert forall|i: int| k + 1 <= i < all.len() implies #[trigger] tables@[i]
                    == all[i] by {
                    assert(rest[i] == all[i]);
                }
                assert(rest[k as int] == all[k as int]);
                assert(names[k as int] == all[k as int].0@);
                assert(names.take(k + 1) =~= names.take(k as int).push(names[k as int]));
            }
            let (table, data) = entry;
            let ghost before = self.tables@;
            let ghost position = table_names(before).index_of(table@);
            let columns = data.into_columns();
            if let Some(at) = self.find_table(table.as_str()) {
                self.tables[at].ingest_homogeneous(columns);
                proof {
                    assert(table_names(self.tables@) =~= table_names(before));
                    assert(table_names(before)[at as int] == table@);
                    assert forall|other: int|
                        0 <= other < old(self).tables@.len() && !names.take(k + 1).contains(
                            (#[trigger] old(self).tables@[other]).name@,
                        ) implies self.tables@[other] == old(self).tables@[other] by {
                        assert(table_names(old(self).tables@)[other]
                            == old(self).tables@[other].name@);
                        if other == at {
                            assert(names.take(k + 1)[k as int] == table@);
                            assert(table_names(before)[other] == table@);
                        } else {
                            if names.take(k as int).contains(old(self).tables@[other].name@) {
                                let j = names.take(k as int).index_of(old(self).tables@[other].name@);
                                assert(names.take(k + 1)[j] == old(self).tables@[other].name@);
                            }
                            assert(before[other] == old(self).tables@[other]);
                        }
                    }
                    {
                        assert(!names.take(k as int).contains(table@)) by {
                            if names.take(k as int).contains(table@) {
                                let j = names.take(k as int).index_of(table@);
                                assert(names[j] == names[k as int]);
                            }
                        }
                        assert(table_names(old(self).tables@)[at as int] == table@);
                        assert(before[at as int] == old(self).tables@[at as int]);
                        assert forall|j: int, other: int|
                            0 <= j < k + 1 && 0 <= other < old(self).tables@.len() && (
                            #[trigger] old(self).tables@[other]).name@
                                == (#[trigger] all[j]).0@ implies took(
                            old(self).tables@[other],
                            self.tables@[other],
                            all[j].1,
                        ) by {
                            assert(table_names(old(self).tables@)[other]
                                == old(self).tables@[other].name@);
                            assert(names[j] == all[j].0@);
                            if j == k {
                                assert(table_names(old(self).tables@)[other] == table_names(
                                    old(self).tables@,
                                )[at as int]);
                                assert(other == at);
                            } else {
                                assert(names[j] != names[k as int]);
                                assert(other != at);
                                assert(self.tables@[other] == before[other]);
                            }
                        }
                    }
                }
            } else {
                proof {
                    assert(table_names(old(self).tables@).contains(names[k as int]));
                }
            }
            k += 1;
        }
        assert(names.take(k as int) =~= names);
    }

    /// Completes the ingestion of a batch, given what became of writing it
    /// to the write-ahead log. A batch that was written reaches the buffers:
    /// the tables that are missing are created, the rows are appended to the
    /// open buffers of their tables, and the bytes written are counted. A
    /// batch that could not be written fails with the error of the write and
    /// leaves the database as it was: no table is created, and no buffer
    /// holds any of its rows.
    pub fn finish_ingest(&mut self, staged: EventBuffer, written: Result<u64, QueryError>) -> (res:
        Result<(), QueryError>)
        requires
            old(self).wf(),
            staged.wf(),
        ensures
            final(self).wf(),
            final(self).lru == old(self).lru,
            final(self).opts == old(self).opts,
            final(self).running == old(self).running,
            match written {
                Ok(bytes) => {
                    &&& res is Ok
                    &&& exists|opened_tables: Seq<Table>|
                        {
                            &&& #[trigger] opened(
                                old(self).tables@,
                                opened_tables,
                                new_names(
                                    table_names(old(self).tables@),
                                    event_tables(staged.tables@),
                                ),
                            )
                            &&& applied(opened_tables, final(self).tables@, staged.tables@)
                        }
                    &&& (forall|i: int|
                        0 <= i < staged.tables@.len() ==> table_names(old(self).tables@).contains(
                            #[trigger] event_tables(staged.tables@)[i],
                        )) ==> applied(old(self).tables@, final(self).tables@, staged.tables@)
                    &&& final(self).wal_size == if old(self).wal_size + bytes > u64::MAX {
                        u64::MAX
                    } else {
                        (old(self).wal_size + bytes) as u64
                    }
                },
                Err(error) => {
                    &&& res == Err::<(), QueryError>(error)
                    &&& final(self).tables@ == old(self).tables@
                    &&& final(self).wal_size == old(self).wal_size
                },
            },
    {
        match written {
            Ok(bytes) => {
                self.replay(staged);
                self.record_wal_bytes(bytes);
                proof {
                    let known = table_names(old(self).tables@);
                    let requested = event_tables(staged.tables@);
                    if forall|i: int| 0 <= i < requested.len() ==> known.contains(
                        #[trigger] requested[i]) {
                        lemma_no_new_names(known, requested);
                        let opened_tables = choose|opened_tables: Seq<Table>|
                            {
                                &&& #[trigger] opened(
                                    old(self).tables@,
                                    opened_tables,
                                    new_names(known, requested),
                                )
                                &&& applied(opened_tables, self.tables@, staged.tables@)
                            };
                        assert(opened_tables =~= old(self).tables@) by {
                            assert(opened_tables.take(old(self).tables@.len() as int)
                                =~= opened_tables);
                        }
                    }
                }
                Ok(())
            },
            Err(error) => Err(error),
        }
    }

    /// Takes in a batch of events: creates the tables that are new, lists
    /// them in the table of tables with the time `now`, and appends the rows
    /// of the batch to the open buffers of their tables. Returns the number
    /// of tables created.
    pub fn ingest_efficient(&mut self, events: EventBuffer, now: i64) -> (created: usize)
        requires
            old(self).wf(),
            events.wf(),
        ensures
            final(self).wf(),
            final(self).lru == old(self).lru,
            final(self).wal_size == old(self).wal_size,
            final(self).opts == old(self).opts,
            final(self).running == old(self).running,
            created == new_names(
                table_names(old(self).tables@),
                event_tables(events.tables@),
            ).len(),
            table_names(final(self).tables@) == table_names(old(self).tables@) + new_names(
                table_names(old(self).tables@),
                event_tables(events.tables@),
            ),
            exists|staged: Seq<Table>, batch: Seq<(String, TableBuffer)>|
                {
                    &&& #[trigger] opened(
                        old(self).tables@,
                        staged,
                        new_names(table_names(old(self).tables@), event_tables(events.tables@)),
                    )
                    &&& #[trigger] with_listings(
                        events.tables@,
                        batch,
                        new_names(table_names(old(self).tables@), event_tables(events.tables@)),
                        now,
                    )
                    &&& applied(staged, final(self).tables@, batch)
                },
            old(self).registered() && (created > 0 || !event_tables(events.tables@).contains(
                "_meta_tables"@,
            )) ==> final(self).registered(),
    {
        let mut staged = events;
        let created = self.list_new_tables(&mut staged, now);
        let ghost batch = staged.tables@;
        self.replay(staged);
        proof {
            let before = old(self).tables@;
            let known = table_names(before);
            let listed = new_names(known, event_tables(events.tables@));
            assert(known[0] == "_meta_tables"@);
            lemma_listed_names(known, events.tables@, batch, now);
            let opened_tables = choose|opened_tables: Seq<Table>|
                {
                    &&& #[trigger] opened(before, opened_tables, listed)
                    &&& applied(opened_tables, self.tables@, batch)
                };
            assert(table_names(self.tables@) =~= known + listed) by {
                assert forall|i: int| 0 <= i < opened_tables.len() implies table_names(
                    opened_tables,
                )[i] == (known + listed)[i] by {
                    if i < before.len() {
                        assert(opened_tables.take(before.len() as int)[i] == opened_tables[i]);
                    } else {
                        assert(opened_tables[before.len() + (i - before.len())].name@
                            == listed[i - before.len()]);
                    }
                }
                assert(table_names(opened_tables) =~= known + listed);
            }
            if old(self).registered() && (created > 0 || !event_tables(events.tables@).contains(
                "_meta_tables"@,
            )) {
                lemma_listing_keeps_registered(
                    before,
                    opened_tables,
                    self.tables@,
                    events.tables@,
                    batch,
                    now,
                );
            }
        }
        created
    }
}

/// `after` is `before` with the `count` partitions from position `start` on
/// replaced by one.
pub open spec fn compacted(
    before: Seq<crate::mem_store::partition::Partition>,
    after: Seq<crate::mem_store::partition::Partition>,
    start: int,
    count: int,
) -> bool {
    &&& after.len() == before.len() - count + 1
    &&& after.take(start) == before.take(start)
    &&& after.skip(start + 1) == before.skip(start + count)
}

/// The partition holds the columns `data` in memory, under their names.
pub open spec fn holds(
    partition: crate::mem_store::partition::Partition,
    data: Seq<(String, BasicTypeColumn)>,
) -> bool {
    &&& partition.columns@.len() == data.len()
    &&& forall|i: int|
        0 <= i < data.len() ==> {
            &&& (#[trigger] partition.columns@[i]).column is Some
            &&& partition.columns@[i].column->0.spec_name() == data[i].0@
            &&& partition.columns@[i].column->0.values() == data[i].1.rows()
        }
}

/// The bytes that the tables take in memory, as far as a `usize` can hold it.
pub open spec fn heap_size_of(tables: Seq<Table>) -> usize
    decreases tables.len(),
{
    if tables.len() == 0 {
        0
    } else {
        crate::mem_store::raw_col::saturated(
            (heap_size_of(tables.drop_last()) + tables.last().spec_heap_size()) as nat,
        )
    }
}

/// The bytes of the columns of the tables' partitions that are in memory.
pub open spec fn resident(tables: Seq<Table>) -> nat
    decreases tables.len(),
{
    if tables.len() == 0 {
        0
    } else {
        resident(tables.drop_last()) + crate::mem_store::table::resident_total(
            tables.last().partitions@,
        )
    }
}

/// Where two lists of tables differ in one table only, the bytes in memory
/// differ by those of that table.
proof fn lemma_resident_differs(before: Seq<Table>, after: Seq<Table>, at: int)
    requires
        before.len() == after.len(),
        0 <= at < before.len(),
        forall|i: int| 0 <= i < before.len() && i != at ==> after[i] == before[i],
    ensures
        resident(before) + crate::mem_store::table::resident_total(after[at].partitions@)
            == resident(after) + crate::mem_store::table::resident_total(before[at].partitions@),
    decreases before.len(),
{
    if at == before.len() - 1 {
        assert(before.drop_last() =~= after.drop_last());
    } else {
        lemma_resident_differs(before.drop_last(), after.drop_last(), at);
    }
}

/// `bytes` less `freed`, but not below zero.
pub open spec fn reduced(bytes: usize, freed: nat) -> usize {
    if bytes < freed {
        0
    } else {
        (bytes - freed) as usize
    }
}

/// The columns of a partition whose columns are all in memory.
pub open spec fn columns_in_memory(partition: crate::mem_store::partition::Partition) -> Seq<
    Arc<Column>,
> {
    partition.columns@.map_values(|h: crate::mem_store::partition::ColumnHandle| h.column->0)
}

/// `after` is the table `before` with the column that `victim` names
/// dropped from memory, which frees `freed` bytes.
pub open spec fn evicted(
    before: Table,
    after: Table,
    victim: crate::mem_store::lru::LocatorView,
    freed: usize,
) -> bool {
    &&& after.name == before.name
    &&& after.buffer == before.buffer
    &&& after.frozen_buffer == before.frozen_buffer
    &&& after.next_partition_id == before.next_partition_id
    &&& after.partitions@.len() == before.partitions@.len()
    &&& forall|i: int|
        0 <= i < before.partitions@.len() ==> {
            &&& (#[trigger] after.partitions@[i]).id == before.partitions@[i].id
            &&& after.partitions@[i].offset == before.partitions@[i].offset
            &&& after.partitions@[i].len == before.partitions@[i].len
            &&& after.partitions@[i].columns@ == if before.partitions@[i].id == victim.id {
                before.partitions@[i].columns@.map_values(
                    |h: crate::mem_store::partition::ColumnHandle|
                        crate::mem_store::partition::dropped(h, victim.column),
                )
            } else {
                before.partitions@[i].columns@
            }
        }
    &&& crate::mem_store::table::resident_total(after.partitions@)
        <= crate::mem_store::table::resident_total(before.partitions@)
    &&& freed == crate::mem_store::raw_col::saturated(
        (crate::mem_store::table::resident_total(before.partitions@)
            - crate::mem_store::table::resident_total(after.partitions@)) as nat,
    )
}

/// The handle without its data.
pub open spec fn without_data(
    handle: crate::mem_store::partition::ColumnHandle,
) -> crate::mem_store::partition::ColumnHandle {
    crate::mem_store::partition::ColumnHandle {
        name: handle.name,
        size_bytes: handle.size_bytes,
        column: None,
    }
}

/// `after` is the table `before` with the columns that `victims` name
/// dropped from memory.
pub open spec fn evicted_all(
    before: Table,
    after: Table,
    victims: Seq<crate::mem_store::lru::LocatorView>,
) -> bool {
    &&& after.name == before.name
    &&& after.buffer == before.buffer
    &&& after.frozen_buffer == before.frozen_buffer
    &&& after.next_partition_id == before.next_partition_id
    &&& after.partitions@.len() == before.partitions@.len()
    &&& forall|p: int|
        0 <= p < before.partitions@.len() ==> {
            &&& (#[trigger] after.partitions@[p]).id == before.partitions@[p].id
            &&& after.partitions@[p].offset == before.partitions@[p].offset
            &&& after.partitions@[p].len == before.partitions@[p].len
            &&& after.partitions@[p].columns@.len() == before.partitions@[p].columns@.len()
        }
    &&& forall|p: int, c: int|
        0 <= p < before.partitions@.len() && 0 <= c < before.partitions@[p].columns@.len() ==> (
        #[trigger] after.partitions@[p].columns@[c]) == if victims.contains(
            crate::mem_store::lru::LocatorView {
                table: before.name@,
                id: before.partitions@[p].id,
                column: before.partitions@[p].columns@[c].name@,
            },
        ) {
            without_data(before.partitions@[p].columns@[c])
        } else {
            before.partitions@[p].columns@[c]
        }
}

/// Dropping one more column from the table that it belongs to.
proof fn lemma_evicted_one_more(
    origin: Table,
    before: Table,
    after: Table,
    victims: Seq<crate::mem_store::lru::LocatorView>,
    victim: crate::mem_store::lru::LocatorView,
    freed: usize,
)
    requires
        evicted_all(origin, before, victims),
        origin.name@ == victim.table,
        evicted(before, after, victim, freed),
    ensures
        evicted_all(origin, after, victims.push(victim)),
{
    let more = victims.push(victim);
    assert forall|p: int, c: int|
        0 <= p < origin.partitions@.len() && 0 <= c < origin.partitions@[p].columns@.len() implies (
    #[trigger] after.partitions@[p].columns@[c]) == if more.contains(
        crate::mem_store::lru::LocatorView {
            table: origin.name@,
            id: origin.partitions@[p].id,
            column: origin.partitions@[p].columns@[c].name@,
        },
    ) {
        without_data(origin.partitions@[p].columns@[c])
    } else {
        origin.partitions@[p].columns@[c]
    } by {
        let named = crate::mem_store::lru::LocatorView {
            table: origin.name@,
            id: origin.partitions@[p].id,
            column: origin.partitions@[p].columns@[c].name@,
        };
        let was = before.partitions@[p].columns@[c];
        assert(after.partitions@[p].id == before.partitions@[p].id);
        assert(was == if victims.contains(named) {
            without_data(origin.partitions@[p].columns@[c])
        } else {
            origin.partitions@[p].columns@[c]
        });
        if victims.contains(named) {
            let k = victims.index_of(named);
            assert(more[k] == named);
        }
        if named == victim {
            assert(more[victims.len() as int] == named);
        }
        if more.contains(named) {
            let k = more.index_of(named);
            if k < victims.len() {
                assert(victims[k] == named);
            }
        }
    }
}

/// A column that is dropped from another table leaves this one as it was.
proof fn lemma_evicted_elsewhere(
    origin: Table,
    before: Table,
    victims: Seq<crate::mem_store::lru::LocatorView>,
    victim: crate::mem_store::lru::LocatorView,
)
    requires
        evicted_all(origin, before, victims),
        origin.name@ != victim.table,
    ensures
        evicted_all(origin, before, victims.push(victim)),
{
    let more = victims.push(victim);
    assert forall|p: int, c: int|
        0 <= p < origin.partitions@.len() && 0 <= c < origin.partitions@[p].columns@.len() implies (
    #[trigger] before.partitions@[p].columns@[c]) == if more.contains(
        crate::mem_store::lru::LocatorView {
            table: origin.name@,
            id: origin.partitions@[p].id,
            column: origin.partitions@[p].columns@[c].name@,
        },
    ) {
        without_data(origin.partitions@[p].columns@[c])
    } else {
        origin.partitions@[p].columns@[c]
    } by {
        let named = crate::mem_store::lru::LocatorView {
            table: origin.name@,
            id: origin.partitions@[p].id,
            column: origin.partitions@[p].columns@[c].name@,
        };
        if victims.contains(named) {
            let k = victims.index_of(named);
            assert(more[k] == named);
        }
        if more.contains(named) {
            let k = more.index_of(named);
            if k < victims.len() {
                assert(victims[k] == named);
            }
        }
    }
}

/// What the tables are taken to hold in memory when the columns that
/// `victims` name have been dropped: what they held, less the bytes of
/// these columns.
pub open spec fn estimate(
    tables: Seq<Table>,
    victims: Seq<crate::mem_store::lru::LocatorView>,
) -> usize {
    reduced(heap_size_of(tables), (resident(tables) - resident_without(tables, victims)) as nat)
}

/// The bytes of those of `columns` that are in memory and that `victims`
/// do not name, for the columns of the partition `id` of the table `table`.
pub open spec fn bytes_left(
    columns: Seq<crate::mem_store::partition::ColumnHandle>,
    table: Seq<char>,
    id: PartitionID,
    victims: Seq<crate::mem_store::lru::LocatorView>,
) -> nat
    decreases columns.len(),
{
    if columns.len() == 0 {
        0
    } else {
        let named = crate::mem_store::lru::LocatorView {
            table,
            id,
            column: columns.last().name@,
        };
        bytes_left(columns.drop_last(), table, id, victims) + if columns.last().column is Some
            && !victims.contains(named) {
            columns.last().size_bytes as nat
        } else {
            0
        }
    }
}

/// The bytes of the columns of `partitions`, the partitions of the table
/// `table`, that are in memory and that `victims` do not name.
pub open spec fn partitions_left(
    partitions: Seq<crate::mem_store::partition::Partition>,
    table: Seq<char>,
    victims: Seq<crate::mem_store::lru::LocatorView>,
) -> nat
    decreases partitions.len(),
{
    if partitions.len() == 0 {
        0
    } else {
        partitions_left(partitions.drop_last(), table, victims) + bytes_left(
            partitions.last().columns@,
            table,
            partitions.last().id,
            victims,
        )
    }
}

/// The bytes of the columns of `tables` that are still in memory when the
/// columns that `victims` name have been dropped.
pub open spec fn resident_without(
    tables: Seq<Table>,
    victims: Seq<crate::mem_store::lru::LocatorView>,
) -> nat
    decreases tables.len(),
{
    if tables.len() == 0 {
        0
    } else {
        resident_without(tables.drop_last(), victims) + partitions_left(
            tables.last().partitions@,
            tables.last().name@,
            victims,
        )
    }
}

/// The columns of a partition that are left in memory take the bytes that
/// `bytes_left` gives.
proof fn lemma_bytes_left(
    before: Seq<crate::mem_store::partition::ColumnHandle>,
    after: Seq<crate::mem_store::partition::ColumnHandle>,
    table: Seq<char>,
    id: PartitionID,
    victims: Seq<crate::mem_store::lru::LocatorView>,
)
    requires
        before.len() == after.len(),
        forall|c: int|
            0 <= c < before.len() ==> #[trigger] after[c] == if victims.contains(
                crate::mem_store::lru::LocatorView { table, id, column: before[c].name@ },
            ) {
                without_data(before[c])
            } else {
                before[c]
            },
    ensures
        crate::mem_store::partition::resident_bytes(after) == bytes_left(before, table, id, victims),
    decreases before.len(),
{
    if before.len() > 0 {
        assert forall|c: int| 0 <= c < before.drop_last().len()
            implies #[trigger] after.drop_last()[c]
            == if victims.contains(
            crate::mem_store::lru::LocatorView { table, id, column: before.drop_last()[c].name@ },
        ) {
            without_data(before.drop_last()[c])
        } else {
            before.drop_last()[c]
        } by {
            assert(after.drop_last()[c] == after[c]);
        }
        lemma_bytes_left(before.drop_last(), after.drop_last(), table, id, victims);
        assert(after.last() == after[before.len() - 1]);
    }
}

/// The partitions of a table whose columns `victims` were dropped take the
/// bytes that `partitions_left` gives.
proof fn lemma_partitions_left(
    before: Seq<crate::mem_store::partition::Partition>,
    after: Seq<crate::mem_store::partition::Partition>,
    table: Seq<char>,
    victims: Seq<crate::mem_store::lru::LocatorView>,
)
    requires
        before.len() == after.len(),
        forall|p: int|
            0 <= p < before.len() ==> (#[trigger] after[p]).columns@.len()
                == before[p].columns@.len(),
        forall|p: int, c: int|
            0 <= p < before.len() && 0 <= c < before[p].columns@.len() ==> (
            #[trigger] after[p].columns@[c]) == if victims.contains(
                crate::mem_store::lru::LocatorView {
                    table,
                    id: before[p].id,
                    column: before[p].columns@[c].name@,
                },
            ) {
                without_data(before[p].columns@[c])
            } else {
                before[p].columns@[c]
            },
    ensures
        crate::mem_store::table::resident_total(after) == partitions_left(before, table, victims),
    decreases before.len(),
{
    if before.len() > 0 {
        let last = before.len() - 1;
        assert forall|p: int| 0 <= p < last implies (#[trigger] after.drop_last()[p]).columns@.len()
            == before.drop_last()[p].columns@.len() by {
            assert(after.drop_last()[p] == after[p]);
        }
        assert forall|p: int, c: int|
            0 <= p < last && 0 <= c < before.drop_last()[p].columns@.len() implies (
        #[trigger] after.drop_last()[p].columns@[c]) == if victims.contains(
            crate::mem_store::lru::LocatorView {
                table,
                id: before.drop_last()[p].id,
                column: before.drop_last()[p].columns@[c].name@,
            },
        ) {
            without_data(before.drop_last()[p].columns@[c])
        } else {
            before.drop_last()[p].columns@[c]
        } by {
            assert(after.drop_last()[p].columns@[c] == after[p].columns@[c]);
        }
        lemma_partitions_left(before.drop_last(), after.drop_last(), table, victims);
        assert(after[last].columns@.len() == before[last].columns@.len());
        assert forall|c: int| 0 <= c < before[last].columns@.len() implies (
        #[trigger] after[last].columns@[c]) == if victims.contains(
            crate::mem_store::lru::LocatorView {
                table,
                id: before[last].id,
                column: before[last].columns@[c].name@,
            },
        ) {
            without_data(before[last].columns@[c])
        } else {
            before[last].columns@[c]
        } by {}
        lemma_bytes_left(before[last].columns@, after[last].columns@, table, before[last].id,
            victims);
    }
}

/// Tables whose columns `victims` were dropped take the bytes that
/// `resident_without` gives.
proof fn lemma_resident_without(
    before: Seq<Table>,
    after: Seq<Table>,
    victims: Seq<crate::mem_store::lru::LocatorView>,
)
    requires
        before.len() == after.len(),
        forall|i: int| 0 <= i < before.len() ==> evicted_all(before[i], #[trigger] after[i], victims),
    ensures
        resident(after) == resident_without(before, victims),
    decreases before.len(),
{
    if before.len() > 0 {
        let last = before.len() - 1;
        assert forall|i: int| 0 <= i < last implies evicted_all(
            before.drop_last()[i],
            #[trigger] after.drop_last()[i],
            victims,
        ) by {
            assert(evicted_all(before[i], after[i], victims));
        }
        lemma_resident_without(before.drop_last(), after.drop_last(), victims);
        assert(evicted_all(before[last], after[last], victims));
        lemma_partitions_left(
            before[last].partitions@,
            after[last].partitions@,
            before[last].name@,
            victims,
        );
    }
}

/// Dropping one more column from the tables.
proof fn lemma_evicted_next(
    origin: Seq<Table>,
    before: Seq<Table>,
    after: Seq<Table>,
    victims: Seq<crate::mem_store::lru::LocatorView>,
    victim: crate::mem_store::lru::LocatorView,
    freed: usize,
)
    requires
        origin.len() == before.len(),
        before.len() == after.len(),
        forall|i: int|
            0 <= i < origin.len() ==> evicted_all(origin[i], #[trigger] before[i], victims),
        forall|i: int|
            0 <= i < before.len() && (#[trigger] before[i]).name@ != victim.table ==> after[i]
                == before[i],
        forall|i: int|
            0 <= i < before.len() && (#[trigger] before[i]).name@ == victim.table ==> evicted(
                before[i],
                after[i],
                victim,
                freed,
            ),
    ensures
        forall|i: int|
            0 <= i < origin.len() ==> evicted_all(
                origin[i],
                #[trigger] after[i],
                victims.push(victim),
            ),
{
    assert forall|i: int| 0 <= i < origin.len() implies evicted_all(
        origin[i],
        #[trigger] after[i],
        victims.push(victim),
    ) by {
        assert(evicted_all(origin[i], before[i], victims));
        if before[i].name@ == victim.table {
            lemma_evicted_one_more(origin[i], before[i], after[i], victims, victim, freed);
        } else {
            lemma_evicted_elsewhere(origin[i], before[i], victims, victim);
        }
    }
}

/// `after` is the handle `before` with the data of `column` in memory if
/// that is its column.
pub open spec fn loaded_as(
    before: crate::mem_store::partition::ColumnHandle,
    after: crate::mem_store::partition::ColumnHandle,
    column: Column,
) -> bool {
    if before.name@ == column.spec_name() {
        &&& after.name == before.name
        &&& after.size_bytes == crate::mem_store::raw_col::saturated(
            column.spec_data().heap_bytes(),
        )
        &&& after.column is Some
        &&& *after.column->0 == column
    } else {
        after == before
    }
}

/// `after` is the table `before` with the data of `column` back in memory
/// in its partition `id`.
pub open spec fn restored(before: Table, after: Table, id: PartitionID, column: Column) -> bool {
    &&& after.name == before.name
    &&& after.buffer == before.buffer
    &&& after.frozen_buffer == before.frozen_buffer
    &&& after.next_partition_id == before.next_partition_id
    &&& after.partitions@.len() == before.partitions@.len()
    &&& forall|i: int|
        0 <= i < before.partitions@.len() ==> {
            &&& (#[trigger] after.partitions@[i]).id == before.partitions@[i].id
            &&& after.partitions@[i].offset == before.partitions@[i].offset
            &&& after.partitions@[i].len == before.partitions@[i].len
            &&& after.partitions@[i].columns@.len() == before.partitions@[i].columns@.len()
            &&& forall|j: int|
                0 <= j < before.partitions@[i].columns@.len() ==> if before.partitions@[i].id
                    == id {
                    loaded_as(
                        before.partitions@[i].columns@[j],
                        #[trigger] after.partitions@[i].columns@[j],
                        column,
                    )
                } else {
                    after.partitions@[i].columns@[j] == before.partitions@[i].columns@[j]
                }
        }
}

/// The order of eviction after the columns `names` of the partition `id` of
/// the table `table` were registered as used just now, one after the other.
pub open spec fn registered_columns(
    lru: Seq<crate::mem_store::lru::LocatorView>,
    table: Seq<char>,
    id: PartitionID,
    names: Seq<Seq<char>>,
) -> Seq<crate::mem_store::lru::LocatorView>
    decreases names.len(),
{
    if names.len() == 0 {
        lru
    } else {
        let key = crate::mem_store::lru::LocatorView { table, id, column: names.last() };
        crate::mem_store::lru::without(
            registered_columns(lru, table, id, names.drop_last()),
            key,
        ).push(key)
    }
}

/// The order of eviction after a column of the name `name` of the
/// partition `id` was put back into memory: every table that has such a
/// column has it registered as used just now, in the order of the tables.
pub open spec fn registered_with(
    lru: Seq<crate::mem_store::lru::LocatorView>,
    tables: Seq<Table>,
    id: PartitionID,
    name: Seq<char>,
) -> Seq<crate::mem_store::lru::LocatorView>
    decreases tables.len(),
{
    if tables.len() == 0 {
        lru
    } else {
        let earlier = registered_with(lru, tables.drop_last(), id, name);
        if crate::mem_store::table::has_column(tables.last().partitions@, id, name) {
            let key = crate::mem_store::lru::LocatorView {
                table: tables.last().name@,
                id,
                column: name,
            };
            crate::mem_store::lru::without(earlier, key).push(key)
        } else {
            earlier
        }
    }
}

/// The names of the columns that the metastore records for a partition.
pub open spec fn recorded_columns(metadata: PartitionMetadata) -> Seq<Seq<char>> {
    metadata.column_name_to_subpartition_index@.map_values(|e: (String, usize)| e.0@)
}

/// `after` is the table `before` with the partition that `metadata`
/// records behind its partitions, none of its columns in memory.
pub open spec fn attached(before: Table, after: Table, metadata: PartitionMetadata) -> bool {
    &&& after.name == before.name
    &&& after.buffer == before.buffer
    &&& after.frozen_buffer == before.frozen_buffer
    &&& after.partitions@.len() == before.partitions@.len() + 1
    &&& after.partitions@.drop_last() == before.partitions@
    &&& crate::mem_store::table::on_disk(
        after.partitions@.last(),
        metadata.id,
        metadata.offset,
        metadata.len,
        recorded_columns(metadata),
    )
    &&& after.next_partition_id == if before.next_partition_id > metadata.id {
        before.next_partition_id
    } else {
        (metadata.id + 1) as u64
    }
    &&& after.row_count() == before.row_count() + metadata.len
}

/// The table has rows that wait to be sealed into a partition.
pub open spec fn sealable(table: Table) -> bool {
    table.frozen_buffer is Some || table.buffer.length > 0
}

/// `after` is the table `before` with its open buffer closed: an open
/// buffer with rows has become the frozen buffer, unless an earlier frozen
/// buffer still waits.
pub open spec fn frozen_from(before: Table, after: Table) -> bool {
    &&& after.name == before.name
    &&& after.partitions == before.partitions
    &&& after.next_partition_id == before.next_partition_id
    &&& after.row_count() == before.row_count()
    &&& if before.frozen_buffer is None && before.buffer.length > 0 {
        &&& after.frozen_buffer == Some(before.buffer)
        &&& after.buffer.length == 0
        &&& after.buffer.columns() == Map::<Seq<char>, Seq<Value>>::empty()
    } else {
        &&& after.frozen_buffer == before.frozen_buffer
        &&& after.buffer == before.buffer
    }
}

/// The rows of the table that wait to be sealed cannot become a partition:
/// they end beyond the range of row positions, or the ids of partitions are
/// used up.
pub open spec fn cannot_seal(table: Table) -> bool {
    let waiting = match table.frozen_buffer {
        Some(frozen) => frozen.length,
        None => table.buffer.length,
    };
    &&& sealable(table)
    &&& (end_offset(table.partitions@) + waiting > usize::MAX || table.next_partition_id
        == u64::MAX)
}

/// What the metastore records of a partition.
#[derive(Debug)]
pub struct PartitionMetadata {
    pub id: PartitionID,
    pub tablename: String,
    pub len: usize,
    pub offset: usize,
    pub subpartitions: Vec<SubpartitionMetadata>,
    /// For every column its name and the position of its subpartition.
    pub column_name_to_subpartition_index: Vec<(String, usize)>,
}

/// A partition that has to be written to disk: what the metastore records
/// of it, and its columns by subpartition.
pub type NewPartition = (PartitionMetadata, Vec<Vec<Arc<Column>>>);

/// A compaction that is due: the partitions `parts` of `table`, which cover
/// the rows `range`, are to be merged into one partition `id`.
#[derive(Debug)]
pub struct Compaction {
    pub table: String,
    pub id: PartitionID,
    pub range: (usize, usize),
    pub parts: Vec<PartitionID>,
}

/// A column as a query returns it. Floats are held as their 64-bit patterns.
#[derive(Debug)]
pub enum BasicTypeColumn {
    Int(Vec<i64>),
    Float(Vec<u64>),
    String(Vec<String>),
    Null(usize),
    Mixed(Vec<RawVal>),
}

impl BasicTypeColumn {
    /// The values of the column, row by row.
    pub open spec fn rows(&self) -> Seq<Value> {
        match *self {
            BasicTypeColumn::Int(ints) => ints@.map_values(|i: i64| Value::Int(i)),
            BasicTypeColumn::Float(floats) => floats@.map_values(|f: u64| Value::Float(f)),
            BasicTypeColumn::String(strings) => strings@.map_values(|s: String| Value::Str(s@)),
            BasicTypeColumn::Null(count) => crate::ingest::input_column::nulls(count as nat),
            BasicTypeColumn::Mixed(values) => values@.map_values(|v: RawVal| v@),
        }
    }
}

/// `after` is the table `before` with its frozen buffer, if it had one,
/// sealed into a partition, which `sealed` describes as it is laid out for
/// the disk; and `due` is the compaction of the first run of
/// `partition_combine_factor` partitions of one size class, if the table
/// then has such a run and an id is left for the partition that replaces it.
pub open spec fn table_flushed(
    before: Table,
    after: Table,
    sealed: Option<NewPartition>,
    due: Option<Compaction>,
    opts: Options,
) -> bool {
    &&& after.name == before.name
    &&& after.buffer == before.buffer
    &&& after.frozen_buffer is None
    &&& after.row_count() == before.row_count()
    &&& after.next_partition_id == before.next_partition_id + sealed_count(sealed) + if due is Some {
        1int
    } else {
        0int
    }
    &&& match before.frozen_buffer {
        Some(frozen) => {
            &&& sealed is Some
            &&& after.partitions@.len() == before.partitions@.len() + 1
            &&& after.partitions@.drop_last() == before.partitions@
            &&& after.partitions@.last().id == before.next_partition_id
            &&& after.partitions@.last().offset == end_offset(before.partitions@)
            &&& crate::mem_store::table::seals(after.partitions@.last(), frozen)
            &&& described(after.partitions@.last(), before.name@, sealed->0, opts)
        },
        None => sealed is None && after.partitions == before.partitions,
    }
    &&& match due {
        Some(compaction) => {
            &&& compaction.table@ == before.name@
            &&& compaction.id == before.next_partition_id + sealed_count(sealed)
            &&& exists|start: int|
                {
                    &&& #[trigger] first_run(
                        after.partitions@,
                        start,
                        opts.partition_combine_factor as nat,
                    )
                    &&& compaction.parts@ == ids_of(
                        after.partitions@.subrange(start, start + opts.partition_combine_factor),
                    )
                    &&& compaction.range.0 == after.partitions@[start].offset
                    &&& compaction.range.1 == end_offset(
                        after.partitions@.take(start + opts.partition_combine_factor),
                    )
                }
        },
        None => after.next_partition_id == u64::MAX || forall|start: int|
            0 <= start ==> !run_at(after.partitions@, start, opts.partition_combine_factor as nat),
    }
}

/// `sealed` describes the partition `partition` of the table `table` as it
/// is laid out for the disk: its columns, sorted by name, in subpartitions.
pub open spec fn described(
    partition: crate::mem_store::partition::Partition,
    table: Seq<char>,
    sealed: NewPartition,
    opts: Options,
) -> bool {
    &&& sealed.0.id == partition.id
    &&& sealed.0.tablename@ == table
    &&& sealed.0.len == partition.len
    &&& sealed.0.offset == partition.offset
    &&& exists|sorted: Seq<Arc<Column>>|
        {
            &&& sorted_by_name(sorted)
            &&& sorted.to_multiset() == columns_in_memory(partition).to_multiset()
            &&& #[trigger] laid_out(
                opts.max_partition_size_bytes,
                sorted,
                sealed.0.subpartitions@,
                sealed.1@,
            )
        }
    &&& sealed.0.column_name_to_subpartition_index@.map_values(|e: (String, usize)| (e.0@, e.1))
        == group_index(sealed.1@)
}

/// One of the columns has the name `name`.
pub open spec fn has_name(
    columns: Seq<crate::mem_store::partition::ColumnHandle>,
    name: Seq<char>,
) -> bool {
    exists|c: int| 0 <= c < columns.len() && (#[trigger] columns[c]).name@ == name
}

/// A restart finds what a flush sealed: the partition that is taken up from
/// what a flush recorded of a sealed partition has the id, the first row
/// and the number of rows of the sealed partition, and the same columns by
/// name, nothing lost and nothing invented.
pub proof fn lemma_restart_finds_partition(
    sealed: crate::mem_store::partition::Partition,
    table: Seq<char>,
    record: NewPartition,
    opts: Options,
    restored: crate::mem_store::partition::Partition,
)
    requires
        sealed.wf(),
        forall|c: int| 0 <= c < sealed.columns@.len()
            ==> (#[trigger] sealed.columns@[c]).column is Some,
        described(sealed, table, record, opts),
        crate::mem_store::table::on_disk(
            restored,
            record.0.id,
            record.0.offset,
            record.0.len,
            recorded_columns(record.0),
        ),
    ensures
        restored.id == sealed.id,
        restored.offset == sealed.offset,
        restored.len == sealed.len,
        restored.columns@.len() == sealed.columns@.len(),
        forall|c: int|
            0 <= c < sealed.columns@.len() ==> has_name(
                restored.columns@,
                (#[trigger] sealed.columns@[c]).name@,
            ),
        forall|k: int|
            0 <= k < restored.columns@.len() ==> has_name(
                sealed.columns@,
                (#[trigger] restored.columns@[k]).name@,
            ),
{
    let held = columns_in_memory(sealed);
    let sorted = choose|sorted: Seq<Arc<Column>>|
        {
            &&& sorted_by_name(sorted)
            &&& sorted.to_multiset() == held.to_multiset()
            &&& #[trigger] laid_out(
                opts.max_partition_size_bytes,
                sorted,
                record.0.subpartitions@,
                record.1@,
            )
        };
    crate::scheduler::subpartition::lemma_index_names(
        opts.max_partition_size_bytes,
        sorted,
        record.0.subpartitions@,
        record.1@,
    );
    let names = recorded_columns(record.0);
    assert(names =~= sorted.map_values(|c: Arc<Column>| c.spec_name())) by {
        assert(names =~= record.0.column_name_to_subpartition_index@.map_values(
            |e: (String, usize)| (e.0@, e.1),
        ).map_values(|e: (Seq<char>, usize)| e.0));
    }
    sorted.to_multiset_ensures();
    held.to_multiset_ensures();
    assert(sorted.len() == held.len());
    assert forall|c: int| 0 <= c < sealed.columns@.len() implies has_name(
        restored.columns@,
        (#[trigger] sealed.columns@[c]).name@,
    ) by {
        assert(held[c] == sealed.columns@[c].column->0);
        assert(held.contains(held[c]));
        assert(sorted.to_multiset().count(held[c]) > 0);
        assert(sorted.contains(held[c]));
        let k = sorted.index_of(held[c]);
        assert(restored.columns@[k].name@ == names[k]);
        assert(names[k] == sorted[k].spec_name());
    }
    assert forall|k: int| 0 <= k < restored.columns@.len() implies has_name(
        sealed.columns@,
        (#[trigger] restored.columns@[k]).name@,
    ) by {
        assert(restored.columns@[k].name@ == names[k]);
        assert(sorted.contains(sorted[k]));
        assert(held.to_multiset().count(sorted[k]) > 0);
        assert(held.contains(sorted[k]));
        let c = held.index_of(sorted[k]);
        assert(held[c] == sealed.columns@[c].column->0);
        assert(sealed.columns@[c].name@ == sorted[k].spec_name());
    }
}

/// `after` is the table `before` after a flush: its open buffer closed and
/// then sealed, with the result `output`.
pub open spec fn flushed_from(
    before: Table,
    after: Table,
    output: (Option<NewPartition>, Option<Compaction>),
    opts: Options,
) -> bool {
    exists|frozen: Table| #[trigger]
        frozen_from(before, frozen) && table_flushed(frozen, after, output.0, output.1, opts)
}

/// Those of `options` that hold a value, in their order.
pub open spec fn present<T>(options: Seq<Option<T>>) -> Seq<T>
    decreases options.len(),
{
    if options.len() == 0 {
        Seq::empty()
    } else if options.last() is Some {
        present(options.drop_last()).push(options.last()->0)
    } else {
        present(options.drop_last())
    }
}

/// The number of partitions in `sealed`: 1 or 0.
pub open spec fn sealed_count(sealed: Option<NewPartition>) -> nat {
    if sealed is Some {
        1
    } else {
        0
    }
}

/// The steps of a flush of the write-ahead log, in their order. The
/// metastore is written before any file is deleted, and partition files are
/// deleted before segments of the log: after a crash between two steps the
/// log still holds every row that no partition holds.
#[derive(Debug, Clone, Copy, PartialEq, Eq, Structural)]
pub enum FlushStep {
    FreezeBuffers,
    BatchTables,
    PersistPartitions,
    Compact,
    PersistMetastore,
    DeleteOrphanedPartitions,
    DeleteWalSegments,
    Done,
}

impl FlushStep {
    /// The place of the step in a flush.
    pub open spec fn order(self) -> nat {
        match self {
            FlushStep::FreezeBuffers => 0,
            FlushStep::BatchTables => 1,
            FlushStep::PersistPartitions => 2,
            FlushStep::Compact => 3,
            FlushStep::PersistMetastore => 4,
            FlushStep::DeleteOrphanedPartitions => 5,
            FlushStep::DeleteWalSegments => 6,
            FlushStep::Done => 7,
        }
    }

    /// The step that follows this one.
    pub fn next(self) -> (step: FlushStep)
        ensures
            step.order() == if self == FlushStep::Done {
                self.order()
            } else {
                self.order() + 1
            },
    {
        match self {
            FlushStep::FreezeBuffers => FlushStep::BatchTables,
            FlushStep::BatchTables => FlushStep::PersistPartitions,
            FlushStep::PersistPartitions => FlushStep::Compact,
            FlushStep::Compact => FlushStep::PersistMetastore,
            FlushStep::PersistMetastore => FlushStep::DeleteOrphanedPartitions,
            FlushStep::DeleteOrphanedPartitions => FlushStep::DeleteWalSegments,
            FlushStep::DeleteWalSegments => FlushStep::Done,
            FlushStep::Done => FlushStep::Done,
        }
    }
}

/// What a flush of the write-ahead log leaves to do on disk: for every
/// table, in the order of the tables, the partition that was made of its
/// frozen buffer and the compaction that is due.
#[derive(Debug)]
pub struct WalFlush {
    pub per_table: Vec<(Option<NewPartition>, Option<Compaction>)>,
}

impl WalFlush {
    /// The new partitions and the compactions, each in the order of the tables.
    pub fn into_parts(self) -> (parts: (Vec<NewPartition>, Vec<Compaction>))
        ensures
            parts.0@ == present(
                self.per_table@.map_values(|o: (Option<NewPartition>, Option<Compaction>)| o.0),
            ),
            parts.1@ == present(
                self.per_table@.map_values(|o: (Option<NewPartition>, Option<Compaction>)| o.1),
            ),
    {
        let mut new_partitions: Vec<NewPartition> = Vec::new();
        let mut compactions: Vec<Compaction> = Vec::new();
        let mut outputs = self.per_table;
        let ghost all = outputs@;
        let ghost sealed = all.map_values(|o: (Option<NewPartition>, Option<Compaction>)| o.0);
        let ghost due = all.map_values(|o: (Option<NewPartition>, Option<Compaction>)| o.1);
        let mut i: usize = 0;
        assert(sealed.take(0) =~= Seq::<Option<NewPartition>>::empty());
        assert(due.take(0) =~= Seq::<Option<Compaction>>::empty());
        while i < outputs.len()
            invariant
                i <= all.len(),
                outputs@.len() == all.len(),
                all == self.per_table@,
                sealed == all.map_values(|o: (Option<NewPartition>, Option<Compaction>)| o.0),
                due == all.map_values(|o: (Option<NewPartition>, Option<Compaction>)| o.1),
                forall|k: int| i <= k < all.len() ==> #[trigger] outputs@[k] == all[k],
                new_partitions@ == present(sealed.take(i as int)),
                compactions@ == present(due.take(i as int)),
            decreases all.len() - i,
        {
            let mut output: (Option<NewPartition>, Option<Compaction>) = (None, None);
            let ghost rest = outputs@;
            core::mem::swap(&mut output, &mut outputs[i]);
            proof {
                assert forall|k: int| i + 1 <= k < all.len() implies #[trigger] outputs@[k]
                    == all[k] by {
                    assert(rest[k] == all[k]);
                }
                assert(output == all[i as int]);
                assert(sealed.take(i + 1).drop_last() =~= sealed.take(i as int));
                assert(due.take(i + 1).drop_last() =~= due.take(i as int));
            }
            let (new_partition, compaction) = output;
            if let Some(partition) = new_partition {
                new_partitions.push(partition);
            }
            if let Some(compaction) = compaction {
                compactions.push(compaction);
            }
            i += 1;
        }
        proof {
            assert(sealed.take(i as int) =~= sealed);
            assert(due.take(i as int) =~= due);
        }
        (new_partitions, compactions)
    }
}

impl InnerLocustDB {
    /// Closes the open buffer of every table and resets the size of the
    /// write-ahead log: what was ingested so far is on its way to disk.
    pub fn freeze_buffers(&mut self)
        requires
            old(self).wf(),
        ensures
            final(self).wf(),
            final(self).wal_size == 0,
            final(self).lru == old(self).lru,
            final(self).opts == old(self).opts,
            final(self).running == old(self).running,
            table_names(final(self).tables@) == table_names(old(self).tables@),
            final(self).tables@.len() == old(self).tables@.len(),
            forall|i: int|
                0 <= i < old(self).tables@.len() ==> frozen_from(
                    old(self).tables@[i],
                    #[trigger] final(self).tables@[i],
                ),
    {
        let mut i: usize = 0;
        while i < self.tables.len()
            invariant
                i <= self.tables@.len(),
                self.tables@.len() == old(self).tables@.len(),
                self.wf(),
                self.wal_size == old(self).wal_size,
                self.lru == old(self).lru,
                self.opts == old(self).opts,
                self.running == old(self).running,
                table_names(self.tables@) == table_names(old(self).tables@),
                forall|k: int|
                    i <= k < self.tables@.len() ==> #[trigger] self.tables@[k] == old(
                        self,
                    ).tables@[k],
                forall|k: int|
                    0 <= k < i ==> frozen_from(old(self).tables@[k], #[trigger] self.tables@[k]),
            decreases self.tables@.len() - i,
        {
            let ghost before = self.tables@;
            self.tables[i].freeze_buffer();
            proof {
                assert(table_names(self.tables@) =~= table_names(before));
                assert(before[i as int] == old(self).tables@[i as int]);
                assert forall|k: int| i + 1 <= k < self.tables@.len() implies (
                #[trigger] self.tables@[k]) == old(self).tables@[k] by {
                    assert(before[k] == old(self).tables@[k]);
                }
                assert forall|k: int| 0 <= k < i implies frozen_from(
                    old(self).tables@[k],
                    #[trigger] self.tables@[k],
                ) by {
                    assert(self.tables@[k] == before[k]);
                }
            }
            i += 1;
        }
        self.wal_size = 0;
    }

    /// Makes a partition of the frozen buffer of the table at position `at`,
    /// if it has one, and lays it out for the disk; then looks whether a
    /// compaction of the table is due. Fails, and changes nothing, if the
    /// rows or the partitions of the table cannot be counted any more.
    #[must_use]
    pub fn flush_table_buffer(&mut self, at: usize) -> (res: Result<
        (Option<NewPartition>, Option<Compaction>),
        QueryError,
    >)
        requires
            old(self).wf(),
            at < old(self).tables@.len(),
        ensures
            final(self).wf(),
            final(self).wal_size == old(self).wal_size,
            final(self).lru == old(self).lru,
            final(self).opts == old(self).opts,
            final(self).running == old(self).running,
            table_names(final(self).tables@) == table_names(old(self).tables@),
            final(self).tables@.len() == old(self).tables@.len(),
            forall|i: int|
                0 <= i < old(self).tables@.len() && i != at ==> #[trigger] final(self).tables@[i]
                    == old(self).tables@[i],
            res is Err <==> overfull(old(self).tables@[at as int]),
            match res {
                Ok((new_partition, maybe_compaction)) => table_flushed(
                    old(self).tables@[at as int],
                    final(self).tables@[at as int],
                    new_partition,
                    maybe_compaction,
                    old(self).opts,
                ),
                Err(e) => e is FatalError && final(self).tables@ == old(self).tables@,
            },
    {
        let mut new_partition: Option<NewPartition> = None;
        let mut maybe_compaction: Option<Compaction> = None;
        let ghost before = self.tables@;
        let ghost mut layout: Seq<Arc<Column>> = Seq::empty();

        let batched = self.tables[at].batch();
        proof {
            assert(table_names(self.tables@) =~= table_names(before));
        }
        match batched {
            Err(e) => {
                assert(self.tables@ =~= before);
                return Err(e);
            },
            Ok(None) => {},
            Ok(Some(id)) => {
                let table = &self.tables[at];
                let partition = &table.partitions[table.partitions.len() - 1];
                let ghost sealed = columns_in_memory(*partition);
                let mut columns: Vec<Arc<Column>> = Vec::with_capacity(partition.columns.len());
                let mut i: usize = 0;
                assert(columns@ =~= sealed.take(0));
                while i < partition.columns.len()
                    invariant
                        i <= partition.columns@.len(),
                        partition.wf(),
                        sealed == columns_in_memory(*partition),
                        forall|k: int|
                            0 <= k < partition.columns@.len() ==> (
                            #[trigger] partition.columns@[k]).column is Some,
                        columns@ == sealed.take(i as int),
                        forall|k: int|
                            0 <= k < columns@.len() ==> (#[trigger] columns@[k]).spec_data().wf(),
                    decreases partition.columns@.len() - i,
                {
                    if let Some(column) = &partition.columns[i].column {
                        columns.push(column.clone());
                    }
                    assert(columns@ =~= sealed.take(i + 1));
                    i += 1;
                }
                assert(sealed.take(i as int) =~= sealed);
                let columns = in_layout_order(columns);
                let ghost sorted = columns@;
                assert forall|k: int| 0 <= k < sorted.len() implies (
                #[trigger] sorted[k]).spec_data().wf() by {
                    assert(sealed.contains(sorted[k]));
                    let j = sealed.index_of(sorted[k]);
                    assert(sealed[j] == sorted[k]);
                }
                let (metadata, subpartitions) = subpartition(&self.opts, columns);
                let mut column_name_to_subpartition_index: Vec<(String, usize)> = Vec::new();
                let mut g: usize = 0;
                assert(subpartitions@.take(0) =~= Seq::<Vec<Arc<Column>>>::empty());
                assert(column_name_to_subpartition_index@.map_values(
                    |e: (String, usize)| (e.0@, e.1),
                ) =~= group_index(subpartitions@.take(0)));
                while g < subpartitions.len()
                    invariant
                        g <= subpartitions@.len(),
                        column_name_to_subpartition_index@.map_values(
                            |e: (String, usize)| (e.0@, e.1),
                        ) == group_index(subpartitions@.take(g as int)),
                    decreases subpartitions@.len() - g,
                {
                    let mut c: usize = 0;
                    let ghost listed = column_name_to_subpartition_index@.map_values(
                        |e: (String, usize)| (e.0@, e.1),
                    );
                    let ghost group = subpartitions@[g as int]@.map_values(
                        |c: Arc<Column>| (c.spec_name(), g),
                    );
                    assert(listed + group.take(0) =~= listed);
                    while c < subpartitions[g].len()
                        invariant
                            g < subpartitions@.len(),
                            c <= subpartitions@[g as int]@.len(),
                            group == subpartitions@[g as int]@.map_values(
                                |c: Arc<Column>| (c.spec_name(), g),
                            ),
                            column_name_to_subpartition_index@.map_values(
                                |e: (String, usize)| (e.0@, e.1),
                            ) == listed + group.take(c as int),
                        decreases subpartitions@[g as int]@.len() - c,
                    {
                        let ghost so_far = column_name_to_subpartition_index@.map_values(
                            |e: (String, usize)| (e.0@, e.1),
                        );
                        column_name_to_subpartition_index.push(
                            (subpartitions[g][c].name().to_owned(), g),
                        );
                        assert(group[c as int]
                            == (subpartitions@[g as int]@[c as int].spec_name(), g));
                        assert(group.take(c + 1) =~= group.take(c as int).push(group[c as int]));
                        assert(column_name_to_subpartition_index@.map_values(
                            |e: (String, usize)| (e.0@, e.1),
                        ) =~= so_far.push(group[c as int]));
                        assert(column_name_to_subpartition_index@.map_values(
                            |e: (String, usize)| (e.0@, e.1),
                        ) =~= listed + group.take(c + 1));
                        c += 1;
                    }
                    proof {
                        assert(group.take(c as int) =~= group);
                        assert(subpartitions@.take(g + 1).drop_last() =~= subpartitions@.take(
                            g as int,
                        ));
                        assert(subpartitions@.take(g + 1).last() == subpartitions@[g as int]);
                    }
                    g += 1;
                }
                assert(subpartitions@.take(g as int) =~= subpartitions@);
                let partition_metadata = PartitionMetadata {
                    id,
                    tablename: table.name().to_owned(),
                    len: partition.len,
                    offset: partition.offset,
                    subpartitions: metadata,
                    column_name_to_subpartition_index,
                };
                proof {
                    layout = sorted;
                }
                new_partition = Some((partition_metadata, subpartitions));
            },
        }
        let ghost batched = self.tables@[at as int].partitions@;
        assert(new_partition is Some ==> sorted_by_name(layout) && layout.to_multiset()
            == columns_in_memory(batched.last()).to_multiset() && laid_out(
            self.opts.max_partition_size_bytes,
            layout,
            (new_partition->0).0.subpartitions@,
            (new_partition->0).1@,
        ));

        if self.tables[at].next_partition_id < u64::MAX {
            if let Some((range, parts)) = self.tables[at].plan_compaction(
                self.opts.partition_combine_factor,
            ) {
                let ghost planned = self.tables@;
                let id = self.tables[at].next_partition_id();
                proof {
                    assert(table_names(self.tables@) =~= table_names(planned));
                }
                maybe_compaction = Some(
                    Compaction { table: self.tables[at].name().to_owned(), id, range, parts },
                );
            }
        }

        assert(self.tables@[at as int].partitions@ == batched);
        Ok((new_partition, maybe_compaction))
    }

    /// Flushes the write-ahead log as far as memory goes: closes the open
    /// buffers, makes partitions of them, and plans the compactions that are
    /// due. What it returns remains to be written to disk, in the order of
    /// `FlushStep`.
    pub fn wal_flush(&mut self) -> (res: Result<WalFlush, QueryError>)
        requires
            old(self).wf(),
        ensures
            final(self).wf(),
            final(self).wal_size == 0,
            final(self).lru == old(self).lru,
            final(self).opts == old(self).opts,
            final(self).running == old(self).running,
            table_names(final(self).tables@) == table_names(old(self).tables@),
            final(self).tables@.len() == old(self).tables@.len(),
            forall|i: int|
                0 <= i < old(self).tables@.len() ==> (#[trigger] final(self).tables@[i]).row_count()
                    == old(self).tables@[i].row_count(),
            res is Err <==> exists|i: int|
                0 <= i < old(self).tables@.len() && cannot_seal(#[trigger] old(self).tables@[i]),
            match res {
                Ok(flush) => {
                    &&& flush.per_table@.len() == old(self).tables@.len()
                    &&& forall|i: int|
                        0 <= i < old(self).tables@.len() ==> flushed_from(
                            old(self).tables@[i],
                            #[trigger] final(self).tables@[i],
                            flush.per_table@[i],
                            old(self).opts,
                        )
                },
                Err(e) => e is FatalError,
            },
    {
        self.freeze_buffers();
        let ghost frozen = self.tables@;

        let mut per_table: Vec<(Option<NewPartition>, Option<Compaction>)> = Vec::new();
        let mut at: usize = 0;
        while at < self.tables.len()
            invariant
                at <= self.tables@.len(),
                self.tables@.len() == frozen.len(),
                frozen.len() == old(self).tables@.len(),
                self.wf(),
                self.wal_size == 0,
                self.lru == old(self).lru,
                self.opts == old(self).opts,
                self.running == old(self).running,
                table_names(self.tables@) == table_names(old(self).tables@),
                forall|i: int|
                    0 <= i < frozen.len() ==> (#[trigger] self.tables@[i]).row_count()
                        == old(self).tables@[i].row_count(),
                forall|i: int| at <= i < frozen.len() ==> #[trigger] self.tables@[i] == frozen[i],
                forall|i: int|
                    0 <= i < frozen.len() ==> frozen_from(old(self).tables@[i], #[trigger] frozen[i]),
                forall|i: int| 0 <= i < at ==> !cannot_seal(#[trigger] old(self).tables@[i]),
                per_table@.len() == at,
                forall|i: int|
                    0 <= i < at ==> flushed_from(
                        old(self).tables@[i],
                        #[trigger] self.tables@[i],
                        per_table@[i],
                        self.opts,
                    ),
            decreases self.tables@.len() - at,
        {
            let ghost before = self.tables@;
            let ghost outputs = per_table@;
            proof {
                assert(before[at as int] == frozen[at as int]);
                assert(frozen_from(old(self).tables@[at as int], frozen[at as int]));
            }
            match self.flush_table_buffer(at) {
                Ok(output) => {
                    per_table.push(output);
                },
                Err(e) => {
                    assert(cannot_seal(old(self).tables@[at as int]));
                    return Err(e);
                },
            }
            proof {
                assert(!cannot_seal(old(self).tables@[at as int]));
                assert forall|i: int| 0 <= i < frozen.len() implies (
                #[trigger] self.tables@[i]).row_count() == old(self).tables@[i].row_count() by {
                    if i != at {
                        assert(self.tables@[i] == before[i]);
                    }
                    assert(before[i].row_count() == old(self).tables@[i].row_count());
                }
                assert forall|i: int| at + 1 <= i < frozen.len() implies #[trigger] self.tables@[i]
                    == frozen[i] by {
                    assert(self.tables@[i] == before[i]);
                }
                assert forall|i: int| 0 <= i < at + 1 implies flushed_from(
                    old(self).tables@[i],
                    #[trigger] self.tables@[i],
                    per_table@[i],
                    self.opts,
                ) by {
                    if i != at {
                        assert(self.tables@[i] == before[i]);
                        assert(per_table@[i] == outputs[i]);
                    }
                }
            }
            at += 1;
        }
        Ok(WalFlush { per_table })
    }

    /// Replaces the partitions `parts` of the table at position `at` by one
    /// partition `id` that holds `data`, the rows of all their columns as a
    /// query has read them, and lays it out for the disk. Fails, and changes
    /// nothing, if a column does not have as many rows as `range` covers.
    /// Returns `None`, and changes nothing, if the table has no such
    /// partitions any more.
    pub fn compact(
        &mut self,
        at: usize,
        id: PartitionID,
        range: (usize, usize),
        parts: &[PartitionID],
        data: Vec<(String, BasicTypeColumn)>,
    ) -> (res: Result<Option<(Vec<SubpartitionMetadata>, Vec<Vec<Arc<Column>>>)>, QueryError>)
        requires
            old(self).wf(),
            at < old(self).tables@.len(),
            id < old(self).tables@[at as int].next_partition_id,
            range.0 <= range.1,
        ensures
            final(self).wf(),
            final(self).wal_size == old(self).wal_size,
            final(self).lru == old(self).lru,
            final(self).opts == old(self).opts,
            final(self).running == old(self).running,
            table_names(final(self).tables@) == table_names(old(self).tables@),
            final(self).tables@.len() == old(self).tables@.len(),
            forall|i: int|
                0 <= i < old(self).tables@.len() && i != at ==> #[trigger] final(self).tables@[i]
                    == old(self).tables@[i],
            final(self).tables@[at as int].name == old(self).tables@[at as int].name,
            final(self).tables@[at as int].buffer == old(self).tables@[at as int].buffer,
            final(self).tables@[at as int].frozen_buffer
                == old(self).tables@[at as int].frozen_buffer,
            final(self).tables@[at as int].next_partition_id
                == old(self).tables@[at as int].next_partition_id,
            res is Err <==> exists|i: int|
                0 <= i < data@.len() && (#[trigger] data@[i]).1.rows().len() != range.1 - range.0,
            res is Ok && res->Ok_0 is Some <==> res is Ok && parts@.len() > 0 && exists|start: int|
                #[trigger] ids_at(old(self).tables@[at as int].partitions@, start, parts@),
            match res {
                Err(e) => e is FatalError && final(self).tables@ == old(self).tables@,
                Ok(None) => final(self).tables@ == old(self).tables@,
                Ok(Some((metadata, subpartitions))) => {
                    exists|start: int|
                        {
                            &&& #[trigger] ids_at(
                                old(self).tables@[at as int].partitions@,
                                start,
                                parts@,
                            )
                            &&& forall|earlier: int|
                                0 <= earlier < start ==> !ids_at(
                                    old(self).tables@[at as int].partitions@,
                                    earlier,
                                    parts@,
                                )
                            &&& compacted(
                                old(self).tables@[at as int].partitions@,
                                final(self).tables@[at as int].partitions@,
                                start,
                                parts@.len() as int,
                            )
                            &&& final(self).tables@[at as int].partitions@[start].id == id
                            &&& final(self).tables@[at as int].partitions@[start].offset == range.0
                            &&& final(self).tables@[at as int].partitions@[start].len == range.1
                                - range.0
                            &&& holds(final(self).tables@[at as int].partitions@[start], data@)
                            &&& final(self).tables@[at as int].row_count()
                                + crate::mem_store::table::sealed_rows(
                                old(self).tables@[at as int].partitions@.subrange(
                                    start,
                                    start + parts@.len(),
                                ),
                            ) == old(self).tables@[at as int].row_count() + range.1 - range.0
                            &&& laid_out(
                                old(self).opts.max_partition_size_bytes,
                                columns_in_memory(
                                    final(self).tables@[at as int].partitions@[start],
                                ),
                                metadata@,
                                subpartitions@,
                            )
                        }
                },
            },
    {
        let len = range.1 - range.0;
        let mut entries = data;
        let ghost all = entries@;
        let mut columns: Vec<Arc<Column>> = Vec::with_capacity(entries.len());
        let mut i: usize = 0;
        while i < entries.len()
            invariant
                i <= all.len(),
                all == data@,
                entries@.len() == all.len(),
                len == range.1 - range.0,
                *self == *old(self),
                self.wf(),
                forall|k: int| i <= k < all.len() ==> #[trigger] entries@[k] == all[k],
                columns@.len() == i,
                forall|k: int|
                    0 <= k < i ==> {
                        &&& (#[trigger] columns@[k]).spec_data().wf()
                        &&& columns@[k].spec_name() == all[k].0@
                        &&& columns@[k].values() == all[k].1.rows()
                        &&& all[k].1.rows().len() == len
                    },
            decreases all.len() - i,
        {
            let mut entry = (String::new(), BasicTypeColumn::Null(0));
            let ghost rest = entries@;
            core::mem::swap(&mut entry, &mut entries[i]);
            proof {
                assert forall|k: int| i + 1 <= k < all.len() implies #[trigger] entries@[k]
                    == all[k] by {
                    assert(rest[k] == all[k]);
                }
                assert(rest[i as int] == all[i as int]);
            }
            let (column, column_data) = entry;
            let mut column_builder = MixedCol::default();
            match column_data {
                BasicTypeColumn::Int(ints) => column_builder.push_ints(ints),
                BasicTypeColumn::Float(floats) => column_builder.push_floats(floats),
                BasicTypeColumn::String(strings) => column_builder.push_strings(strings),
                BasicTypeColumn::Null(count) => column_builder.push_nulls(count),
                BasicTypeColumn::Mixed(raws) => column_builder.push_all(raws),
            }
            assert(column_builder@ =~= all[i as int].1.rows());
            if column_builder.len() != len {
                assert(data@[i as int].1.rows().len() != range.1 - range.0);
                return Err(
                    QueryError::FatalError(
                        "Column does not have as many rows as the partitions it replaces".to_owned(),
                    ),
                );
            }
            columns.push(Arc::new(column_builder.finalize(column.as_str())));
            i += 1;
        }
        proof {
            assert forall|i: int| 0 <= i < data@.len() implies (#[trigger] data@[i]).1.rows().len()
                == range.1 - range.0 by {
                assert(columns@[i].values() == data@[i].1.rows());
            }
        }
        let ghost before = self.tables@;
        let mut copies: Vec<Arc<Column>> = Vec::with_capacity(columns.len());
        let mut k: usize = 0;
        while k < columns.len()
            invariant
                k <= columns@.len(),
                copies@ == columns@.take(k as int),
            decreases columns@.len() - k,
        {
            copies.push(columns[k].clone());
            assert(copies@ =~= columns@.take(k + 1));
            k += 1;
        }
        assert(columns@.take(k as int) =~= columns@);
        let done = self.tables[at].compact(id, range.0, len, copies, parts);
        proof {
            assert(table_names(self.tables@) =~= table_names(before));
        }
        if !done {
            assert(self.tables@ =~= before);
            return Ok(None);
        }
        proof {
            let earlier = before[at as int].partitions@;
            let later = self.tables@[at as int].partitions@;
            let start = choose|start: int|
                {
                    &&& #[trigger] ids_at(earlier, start, parts@)
                    &&& forall|before: int| 0 <= before < start ==> !ids_at(earlier, before, parts@)
                    &&& self.tables@[at as int].row_count() + crate::mem_store::table::sealed_rows(
                        earlier.subrange(start, start + parts@.len()),
                    ) == before[at as int].row_count() + len
                    &&& later.len() == earlier.len() - parts@.len() + 1
                    &&& later.take(start) == earlier.take(start)
                    &&& later.skip(start + 1) == earlier.skip(start + parts@.len())
                    &&& later[start].id == id
                    &&& later[start].offset == range.0
                    &&& later[start].len == len
                    &&& later[start].columns@.len() == columns@.len()
                    &&& forall|i: int|
                        0 <= i < columns@.len() ==> (#[trigger] later[start].columns@[i]).column
                            == Some(columns@[i])
                };
            assert(compacted(earlier, later, start, parts@.len() as int));
            assert(holds(later[start], data@));
            assert(columns_in_memory(later[start]) =~= columns@);
        }
        Ok(Some(subpartition(&self.opts, columns)))
    }

    /// The bytes that the tables take in memory, as far as a `usize` can hold it.
    pub fn mem_usage(&self) -> (bytes: usize)
        ensures
            bytes == heap_size_of(self.tables@),
    {
        let mut bytes: usize = 0;
        let mut i: usize = 0;
        assert(self.tables@.take(0) =~= Seq::<Table>::empty());
        while i < self.tables.len()
            invariant
                i <= self.tables@.len(),
                bytes == heap_size_of(self.tables@.take(i as int)),
            decreases self.tables@.len() - i,
        {
            assert(self.tables@.take(i + 1).drop_last() =~= self.tables@.take(i as int));
            bytes = saturating_sum(bytes, self.tables[i].heap_size_of_children());
            i += 1;
        }
        assert(self.tables@.take(i as int) =~= self.tables@);
        bytes
    }

    /// Evicts the least recently used column and returns the bytes that this
    /// frees, `None` if no column is left that can be evicted.
    pub fn evict_one(&mut self) -> (freed: Option<usize>)
        requires
            old(self).wf(),
        ensures
            final(self).wf(),
            final(self).wal_size == old(self).wal_size,
            final(self).opts == old(self).opts,
            final(self).running == old(self).running,
            table_names(final(self).tables@) == table_names(old(self).tables@),
            final(self).tables@.len() == old(self).tables@.len(),
            match freed {
                Some(bytes) => {
                    &&& old(self).lru@.len() > 0
                    &&& final(self).lru@ == old(self).lru@.drop_first()
                    &&& forall|i: int|
                        0 <= i < old(self).tables@.len() && (#[trigger] old(self).tables@[i]).name@
                            != old(self).lru@[0].table ==> final(self).tables@[i]
                                == old(self).tables@[i]
                    &&& forall|i: int|
                        0 <= i < old(self).tables@.len() && (#[trigger] old(self).tables@[i]).name@
                            == old(self).lru@[0].table ==> evicted(
                            old(self).tables@[i],
                            final(self).tables@[i],
                            old(self).lru@[0],
                            bytes,
                        )
                    &&& !table_names(old(self).tables@).contains(old(self).lru@[0].table) ==> bytes
                        == 0
                },
                None => old(self).lru@.len() == 0 && final(self).lru@ == old(self).lru@
                    && final(self).tables@ == old(self).tables@,
            },
            forall|i: int|
                0 <= i < old(self).tables@.len() ==> (#[trigger] final(self).tables@[i]).row_count()
                    == old(self).tables@[i].row_count(),
            resident(final(self).tables@) <= resident(old(self).tables@),
            freed is Some ==> freed->0 == crate::mem_store::raw_col::saturated(
                (resident(old(self).tables@) - resident(final(self).tables@)) as nat,
            ),
    {
        match self.lru.evict() {
            Some(victim) => {
                let ghost before = self.tables@;
                let freed = match self.find_table(victim.table.as_str()) {
                    Some(at) => {
                        let freed = self.tables[at].evict(&victim);
                        proof {
                            assert(table_names(before)[at as int] == victim.table@);
                            assert(table_names(before).contains(victim.table@));
                            assert forall|i: int|
                                0 <= i < before.len() && (#[trigger] before[i]).name@
                                    == victim.table@ implies i == at by {
                                assert(table_names(before)[i] == table_names(before)[at as int]);
                            }
                            assert(evicted(before[at as int], self.tables@[at as int], victim@,
                                freed));
                            lemma_resident_differs(before, self.tables@, at as int);
                        }
                        freed
                    },
                    None => {
                        proof {
                            assert forall|i: int| 0 <= i < before.len() implies (
                            #[trigger] before[i]).name@ != victim.table@ by {
                                assert(table_names(before)[i] == before[i].name@);
                            }
                            assert(self.tables@ =~= before);
                        }
                        0
                    },
                };
                proof {
                    assert(table_names(self.tables@) =~= table_names(before));
                    assert forall|i: int| 0 <= i < before.len() implies (
                    #[trigger] self.tables@[i]).row_count() == before[i].row_count() by {
                        crate::mem_store::table::lemma_sealed_rows_same(
                            before[i].partitions@,
                            self.tables@[i].partitions@,
                        );
                    }
                }
                Some(freed)
            },
            None => None,
        }
    }

    /// Evicts columns, the least recently used first, until the tables take
    /// no more than `mem_size_limit_tables` bytes or no column is left that
    /// can be evicted. Returns the bytes that the tables take afterwards.
    pub fn enforce_mem_limit(&mut self) -> (mem_usage_bytes: usize)
        requires
            old(self).wf(),
        ensures
            final(self).wf(),
            final(self).wal_size == old(self).wal_size,
            final(self).opts == old(self).opts,
            final(self).running == old(self).running,
            table_names(final(self).tables@) == table_names(old(self).tables@),
            final(self).tables@.len() == old(self).tables@.len(),
            mem_usage_bytes <= old(self).opts.mem_size_limit_tables || final(self).lru@.len() == 0,
            resident(final(self).tables@) <= resident(old(self).tables@),
            mem_usage_bytes == reduced(
                heap_size_of(old(self).tables@),
                (resident(old(self).tables@) - resident(final(self).tables@)) as nat,
            ),
            heap_size_of(old(self).tables@) <= old(self).opts.mem_size_limit_tables ==> {
                &&& final(self).tables@ == old(self).tables@
                &&& final(self).lru@ == old(self).lru@
            },
            exists|count: int|
                {
                    &&& 0 <= count <= old(self).lru@.len()
                    &&& final(self).lru@ == #[trigger] old(self).lru@.skip(count)
                    &&& forall|i: int|
                        0 <= i < old(self).tables@.len() ==> evicted_all(
                            old(self).tables@[i],
                            #[trigger] final(self).tables@[i],
                            old(self).lru@.take(count),
                        )
                    &&& forall|fewer: int|
                        0 <= fewer < count ==> estimate(
                            old(self).tables@,
                            #[trigger] old(self).lru@.take(fewer),
                        ) > old(self).opts.mem_size_limit_tables
                },
            forall|i: int|
                0 <= i < old(self).tables@.len() ==> (#[trigger] final(self).tables@[i]).row_count()
                    == old(self).tables@[i].row_count(),
    {
        let mut mem_usage_bytes = self.mem_usage();
        let ghost initial = mem_usage_bytes;
        let ghost mut dropped: int = 0;
        assert(self.lru@.skip(0) =~= self.lru@);
        while mem_usage_bytes > self.opts.mem_size_limit_tables
            invariant
                self.wf(),
                self.wal_size == old(self).wal_size,
                self.opts == old(self).opts,
                self.running == old(self).running,
                table_names(self.tables@) == table_names(old(self).tables@),
                self.tables@.len() == old(self).tables@.len(),
                0 <= dropped <= old(self).lru@.len(),
                self.lru@ == old(self).lru@.skip(dropped),
                forall|i: int|
                    0 <= i < old(self).tables@.len() ==> evicted_all(
                        old(self).tables@[i],
                        #[trigger] self.tables@[i],
                        old(self).lru@.take(dropped),
                    ),
                forall|fewer: int|
                    0 <= fewer < dropped ==> estimate(
                        old(self).tables@,
                        #[trigger] old(self).lru@.take(fewer),
                    ) > self.opts.mem_size_limit_tables,
                initial == heap_size_of(old(self).tables@),
                resident(self.tables@) <= resident(old(self).tables@),
                mem_usage_bytes == reduced(
                    initial,
                    (resident(old(self).tables@) - resident(self.tables@)) as nat,
                ),
                dropped == 0 ==> self.tables@ == old(self).tables@ && self.lru@ == old(self).lru@,
                dropped > 0 ==> initial > self.opts.mem_size_limit_tables,
                forall|i: int|
                    0 <= i < old(self).tables@.len() ==> (#[trigger] self.tables@[i]).row_count()
                        == old(self).tables@[i].row_count(),
            ensures
                mem_usage_bytes <= self.opts.mem_size_limit_tables || self.lru@.len() == 0,
            decreases self.lru@.len(),
        {
            let ghost before = self.tables@;
            let ghost victim = self.lru@[0];
            proof {
                lemma_resident_without(old(self).tables@, before, old(self).lru@.take(dropped));
                assert(estimate(old(self).tables@, old(self).lru@.take(dropped))
                    == mem_usage_bytes);
            }
            match self.evict_one() {
                Some(freed) => {
                    proof {
                        assert(self.lru@ =~= old(self).lru@.skip(dropped + 1));
                        assert(old(self).lru@.take(dropped + 1) =~= old(self).lru@.take(
                            dropped,
                        ).push(victim));
                        lemma_evicted_next(
                            old(self).tables@,
                            before,
                            self.tables@,
                            old(self).lru@.take(dropped),
                            victim,
                            freed,
                        );
                        dropped = dropped + 1;
                        assert forall|i: int| 0 <= i < old(self).tables@.len() implies (
                        #[trigger] self.tables@[i]).row_count()
                            == old(self).tables@[i].row_count() by {
                            assert(before[i].row_count() == old(self).tables@[i].row_count());
                        }
                    }
                    mem_usage_bytes = if freed > mem_usage_bytes {
                        0
                    } else {
                        mem_usage_bytes - freed
                    };
                },
                None => {
                    break ;
                },
            }
        }
        mem_usage_bytes
    }

    /// Evicts every column that can be evicted and returns the bytes that
    /// this frees, as far as a `usize` can hold it.
    pub fn evict_cache(&mut self) -> (bytes_evicted: usize)
        requires
            old(self).wf(),
        ensures
            final(self).wf(),
            final(self).lru@.len() == 0,
            forall|i: int|
                0 <= i < old(self).tables@.len() ==> evicted_all(
                    old(self).tables@[i],
                    #[trigger] final(self).tables@[i],
                    old(self).lru@,
                ),
            resident(final(self).tables@) <= resident(old(self).tables@),
            bytes_evicted == crate::mem_store::raw_col::saturated(
                (resident(old(self).tables@) - resident(final(self).tables@)) as nat,
            ),
            final(self).wal_size == old(self).wal_size,
            final(self).opts == old(self).opts,
            final(self).running == old(self).running,
            table_names(final(self).tables@) == table_names(old(self).tables@),
            final(self).tables@.len() == old(self).tables@.len(),
            forall|i: int|
                0 <= i < old(self).tables@.len() ==> (#[trigger] final(self).tables@[i]).row_count()
                    == old(self).tables@[i].row_count(),
    {
        let mut bytes_evicted: usize = 0;
        let ghost mut dropped: int = 0;
        assert(self.lru@.skip(0) =~= self.lru@);
        loop
            invariant
                0 <= dropped <= old(self).lru@.len(),
                self.lru@ == old(self).lru@.skip(dropped),
                forall|i: int|
                    0 <= i < old(self).tables@.len() ==> evicted_all(
                        old(self).tables@[i],
                        #[trigger] self.tables@[i],
                        old(self).lru@.take(dropped),
                    ),
                resident(self.tables@) <= resident(old(self).tables@),
                bytes_evicted == crate::mem_store::raw_col::saturated(
                    (resident(old(self).tables@) - resident(self.tables@)) as nat,
                ),
                self.wf(),
                self.wal_size == old(self).wal_size,
                self.opts == old(self).opts,
                self.running == old(self).running,
                table_names(self.tables@) == table_names(old(self).tables@),
                self.tables@.len() == old(self).tables@.len(),
                forall|i: int|
                    0 <= i < old(self).tables@.len() ==> (#[trigger] self.tables@[i]).row_count()
                        == old(self).tables@[i].row_count(),
            ensures
                self.lru@.len() == 0,
            decreases self.lru@.len(),
        {
            let ghost before = self.tables@;
            let ghost victim = self.lru@[0];
            match self.evict_one() {
                Some(freed) => {
                    proof {
                        assert(self.lru@ =~= old(self).lru@.skip(dropped + 1));
                        assert(old(self).lru@.take(dropped + 1) =~= old(self).lru@.take(
                            dropped,
                        ).push(victim));
                        lemma_evicted_next(
                            old(self).tables@,
                            before,
                            self.tables@,
                            old(self).lru@.take(dropped),
                            victim,
                            freed,
                        );
                        dropped = dropped + 1;
                        assert forall|i: int| 0 <= i < old(self).tables@.len() implies (
                        #[trigger] self.tables@[i]).row_count()
                            == old(self).tables@[i].row_count() by {
                            assert(before[i].row_count() == old(self).tables@[i].row_count());
                        }
                    }
                    bytes_evicted = saturating_sum(bytes_evicted, freed);
                },
                None => {
                    break ;
                },
            }
        }
        assert(old(self).lru@.take(dropped) =~= old(self).lru@);
        bytes_evicted
    }

    /// Registers the columns `columns` of the partition `id` of the table
    /// `table` as used just now. Columns of a partition that was sealed in
    /// memory stay there until they are registered: once the partition is
    /// on disk, this makes them evictable.
    pub fn make_evictable(&mut self, table: &str, id: PartitionID, columns: &[String])
        ensures
            final(self).tables == old(self).tables,
            final(self).wal_size == old(self).wal_size,
            final(self).opts == old(self).opts,
            final(self).running == old(self).running,
            final(self).lru@ == registered_columns(
                old(self).lru@,
                table@,
                id,
                columns@.map_values(|n: String| n@),
            ),
    {
        let ghost names = columns@.map_values(|n: String| n@);
        let mut c: usize = 0;
        assert(names.take(0) =~= Seq::<Seq<char>>::empty());
        while c < columns.len()
            invariant
                c <= columns@.len(),
                names == columns@.map_values(|n: String| n@),
                self.tables == old(self).tables,
                self.wal_size == old(self).wal_size,
                self.opts == old(self).opts,
                self.running == old(self).running,
                self.lru@ == registered_columns(old(self).lru@, table@, id, names.take(c as int)),
            decreases columns@.len() - c,
        {
            proof {
                assert(names.take(c + 1).drop_last() =~= names.take(c as int));
                assert(names.take(c + 1).last() == columns@[c as int]@);
            }
            let key = ColumnLocator::new(table, id, columns[c].as_str());
            self.lru.touch(&key);
            c += 1;
        }
        assert(names.take(c as int) =~= names);
    }

    /// Takes up, at a restart, a partition that the metastore records: the
    /// table of the partition is created if it is missing, and gets the
    /// partition behind its partitions, with its columns on disk. Fails, and
    /// changes nothing, if the rows or the ids of the partition cannot be
    /// counted.
    pub fn restore_partition(&mut self, metadata: &PartitionMetadata) -> (res: Result<
        (),
        QueryError,
    >)
        requires
            old(self).wf(),
        ensures
            final(self).wf(),
            final(self).lru == old(self).lru,
            final(self).wal_size == old(self).wal_size,
            final(self).opts == old(self).opts,
            final(self).running == old(self).running,
            res is Err <==> metadata.offset + metadata.len > usize::MAX || metadata.id == u64::MAX,
            res is Err ==> res->Err_0 is FatalError && final(self).tables@ == old(self).tables@,
            res is Ok ==> forall|at: int|
                0 <= at < old(self).tables@.len() && (#[trigger] old(self).tables@[at]).name@
                    == metadata.tablename@ ==> {
                    &&& final(self).tables@.len() == old(self).tables@.len()
                    &&& attached(old(self).tables@[at], final(self).tables@[at], *metadata)
                    &&& forall|i: int|
                        0 <= i < old(self).tables@.len() && i != at ==> (
                        #[trigger] final(self).tables@[i]) == old(self).tables@[i]
                },
            res is Ok && !table_names(old(self).tables@).contains(metadata.tablename@) ==> {
                &&& final(self).tables@.len() == old(self).tables@.len() + 1
                &&& exists|fresh: Table| #[trigger]
                    untouched(fresh, metadata.tablename@) && attached(
                        fresh,
                        final(self).tables@.last(),
                        *metadata,
                    )
                &&& forall|i: int|
                    0 <= i < old(self).tables@.len() ==> #[trigger] final(self).tables@[i]
                        == old(self).tables@[i]
            },
    {
        if metadata.len > usize::MAX - metadata.offset || metadata.id == u64::MAX {
            return Err(QueryError::FatalError("Partition is out of range".to_owned()));
        }
        let mut names: Vec<String> = Vec::with_capacity(
            metadata.column_name_to_subpartition_index.len(),
        );
        let mut c: usize = 0;
        while c < metadata.column_name_to_subpartition_index.len()
            invariant
                c <= metadata.column_name_to_subpartition_index@.len(),
                names@.map_values(|n: String| n@) == recorded_columns(*metadata).take(c as int),
            decreases metadata.column_name_to_subpartition_index@.len() - c,
        {
            let ghost so_far = names@.map_values(|n: String| n@);
            names.push(metadata.column_name_to_subpartition_index[c].0.clone());
            assert(names@.map_values(|n: String| n@) =~= so_far.push(
                recorded_columns(*metadata)[c as int],
            ));
            assert(recorded_columns(*metadata).take(c + 1) =~= recorded_columns(*metadata).take(
                c as int,
            ).push(recorded_columns(*metadata)[c as int]));
            c += 1;
        }
        assert(recorded_columns(*metadata).take(c as int) =~= recorded_columns(*metadata));
        let _ = self.create_if_empty_no_ingest(metadata.tablename.as_str(), 0);
        let ghost created = self.tables@;
        match self.find_table(metadata.tablename.as_str()) {
            Some(at) => {
                assert(table_names(created)[at as int] == metadata.tablename@);
                let outcome = self.tables[at].attach(
                    metadata.id,
                    metadata.offset,
                    metadata.len,
                    names.as_slice(),
                );
                proof {
                    assert(table_names(self.tables@) =~= table_names(created));
                    assert forall|other: int|
                        0 <= other < created.len() && (#[trigger] created[other]).name@
                            == metadata.tablename@ implies other == at by {
                        assert(table_names(created)[other] == table_names(created)[at as int]);
                    }
                    if table_names(old(self).tables@).contains(metadata.tablename@) {
                        assert(created == old(self).tables@);
                    } else {
                        assert(created.drop_last() == old(self).tables@);
                        assert(at == created.len() - 1) by {
                            if at < created.len() - 1 {
                                assert(created.drop_last()[at as int] == created[at as int]);
                                assert(table_names(old(self).tables@)[at as int]
                                    == metadata.tablename@);
                            }
                        }
                        assert(untouched(created.last(), metadata.tablename@));
                        assert forall|i: int| 0 <= i < old(self).tables@.len() implies (
                        #[trigger] self.tables@[i]) == old(self).tables@[i] by {
                            assert(created.drop_last()[i] == created[i]);
                        }
                    }
                }
                outcome
            },
            None => {
                assert(false);
                Ok(())
            },
        }
    }

    /// Puts the data of a column of the partition `id` back into memory,
    /// in every table that has such a partition with such a column, and
    /// registers the column there as used just now, so that it can be
    /// evicted again.
    pub fn restore(&mut self, id: PartitionID, column: Column)
        requires
            old(self).wf(),
            column.spec_data().wf(),
        ensures
            final(self).wf(),
            forall|t: int|
                0 <= t < old(self).tables@.len() ==> restored(
                    old(self).tables@[t],
                    #[trigger] final(self).tables@[t],
                    id,
                    column,
                ),
            final(self).wal_size == old(self).wal_size,
            final(self).lru@ == registered_with(
                old(self).lru@,
                old(self).tables@,
                id,
                column.spec_name(),
            ),
            final(self).opts == old(self).opts,
            final(self).running == old(self).running,
            table_names(final(self).tables@) == table_names(old(self).tables@),
            final(self).tables@.len() == old(self).tables@.len(),
    {
        let ghost given = column;
        let column = Arc::new(column);
        let mut i: usize = 0;
        assert(old(self).tables@.take(0) =~= Seq::<Table>::empty());
        while i < self.tables.len()
            invariant
                i <= self.tables@.len(),
                self.tables@.len() == old(self).tables@.len(),
                *column == given,
                forall|t: int|
                    0 <= t < i ==> restored(
                        old(self).tables@[t],
                        #[trigger] self.tables@[t],
                        id,
                        given,
                    ),
                forall|t: int| i <= t < self.tables@.len() ==> #[trigger] self.tables@[t]
                    == old(self).tables@[t],
                self.wf(),
                column.spec_data().wf(),
                self.wal_size == old(self).wal_size,
                self.lru@ == registered_with(
                    old(self).lru@,
                    old(self).tables@.take(i as int),
                    id,
                    given.spec_name(),
                ),
                self.opts == old(self).opts,
                self.running == old(self).running,
                table_names(self.tables@) == table_names(old(self).tables@),
            decreases self.tables@.len() - i,
        {
            let ghost before = self.tables@;
            proof {
                assert(old(self).tables@.take(i + 1).drop_last() =~= old(self).tables@.take(
                    i as int,
                ));
                assert(old(self).tables@.take(i + 1).last() == before[i as int]);
            }
            if self.tables[i].holds_column(id, column.name()) {
                let key = ColumnLocator::new(self.tables[i].name(), id, column.name());
                self.lru.touch(&key);
            }
            self.tables[i].restore(id, &column);
            proof {
                assert(table_names(self.tables@) =~= table_names(before));
                assert(before[i as int] == old(self).tables@[i as int]);
                assert(restored(before[i as int], self.tables@[i as int], id, given)) by {
                    assert forall|p: int| 0 <= p < before[i as int].partitions@.len() implies {
                        &&& (#[trigger] self.tables@[i as int].partitions@[p]).columns@.len()
                            == before[i as int].partitions@[p].columns@.len()
                        &&& forall|j: int|
                            0 <= j < before[i as int].partitions@[p].columns@.len()
                                ==> if before[i as int].partitions@[p].id == id {
                                loaded_as(
                                    before[i as int].partitions@[p].columns@[j],
                                    #[trigger] self.tables@[i as int].partitions@[p].columns@[j],
                                    given,
                                )
                            } else {
                                self.tables@[i as int].partitions@[p].columns@[j]
                                    == before[i as int].partitions@[p].columns@[j]
                            }
                    } by {}
                }
                assert forall|t: int| 0 <= t < i implies restored(
                    old(self).tables@[t],
                    #[trigger] self.tables@[t],
                    id,
                    given,
                ) by {
                    assert(self.tables@[t] == before[t]);
                }
                assert forall|t: int| i + 1 <= t < self.tables@.len()
                    implies #[trigger] self.tables@[t]
                    == old(self).tables@[t] by {
                    assert(self.tables@[t] == before[t]);
                }
            }
            i += 1;
        }
        assert(old(self).tables@.take(i as int) =~= old(self).tables@);
    }
}

} // verus!
