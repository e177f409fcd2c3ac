use locustdb::ingest::event_buffer::{ColumnData, EventBuffer, TableBuffer};
use locustdb::ingest::raw_val::RawVal;
use locustdb::locustdb::Options;
use locustdb::mem_store::column::{Column, Encoding};
use locustdb::mem_store::lru::{ColumnLocator, Lru};
use locustdb::mem_store::raw_col::MixedCol;
use locustdb::mem_store::table::{class_of, Table};
use locustdb::scheduler::inner_locustdb::{
    BasicTypeColumn, FlushStep, InnerLocustDB, PartitionMetadata, WalLimitAction,
};
use locustdb::scheduler::subpartition::{
    in_layout_order, is_column_name_filesystem_safe, key_of, subpartition,
};
use locustdb::scheduler::task_queue::{Dispatch, Task, TaskQueue};
use std::cell::Cell;
use std::rc::Rc;
use std::sync::Arc;

fn options(max_partition_size_bytes: u64) -> Options {
    Options {
        threads: 1,
        read_threads: 1,
        db_path: None,
        mem_size_limit_tables: 1 << 30,
        mem_lz4: false,
        batch_size: 1024,
        max_wal_size_bytes: 1000,
        max_partition_size_bytes,
        partition_combine_factor: 4,
        wal_flush_compaction_threads: 1,
    }
}

fn int_column(name: &str, rows: usize) -> Arc<Column> {
    let mut col = MixedCol::new();
    col.push_ints((0..rows as i64).collect());
    Arc::new(col.finalize(name))
}

fn names(group: &[Arc<Column>]) -> Vec<String> {
    group.iter().map(|c| c.name().to_string()).collect()
}

fn int_row(value: i64) -> Vec<(String, RawVal)> {
    vec![("v".to_string(), RawVal::Int(value))]
}

fn buffer_column(table: &Table, name: &str) -> Vec<RawVal> {
    let at = table.buffer.find(&name.to_string()).unwrap();
    table.buffer.buffer[at].1.clone().into_values()
}

#[derive(Clone)]
struct TestTask {
    id: u32,
    done: Rc<Cell<bool>>,
    shared: bool,
}

impl Task for TestTask {
    fn execute(&self) {
        self.done.set(true);
    }

    fn completed(&self) -> bool {
        self.done.get()
    }

    fn multithreaded(&self) -> bool {
        self.shared
    }
}

fn task(id: u32, done: bool, shared: bool) -> TestTask {
    TestTask { id, done: Rc::new(Cell::new(done)), shared }
}

#[test]
fn subpartition_of_few_columns_is_called_all() {
    let columns = vec![int_column("a", 10), int_column("b", 20)];
    let (metadata, groups) = subpartition(&options(1000), columns);
    assert_eq!(metadata.len(), 1);
    assert_eq!(metadata[0].subpartition_key, "all");
    assert_eq!(metadata[0].size_bytes, 240);
    assert_eq!(names(&groups[0]), vec!["a", "b"]);

    let (metadata, groups) = subpartition(&options(1000), vec![]);
    assert_eq!(metadata.len(), 1);
    assert_eq!(metadata[0].subpartition_key, "all");
    assert_eq!(metadata[0].size_bytes, 0);
    assert!(groups[0].is_empty());
}

#[test]
fn subpartition_packs_columns_greedily() {
    let columns = vec![
        int_column("ab", 10),
        int_column("cd", 2),
        int_column("Big", 100),
        int_column("e_1", 5),
        int_column("f", 8),
    ];
    let (metadata, groups) = subpartition(&options(100), columns);
    let grouped: Vec<Vec<String>> = groups.iter().map(|g| names(g)).collect();
    assert_eq!(
        grouped,
        vec![vec!["ab", "cd"], vec!["Big"], vec!["e_1"], vec!["f"]]
    );
    let sizes: Vec<u64> = metadata.iter().map(|m| m.size_bytes).collect();
    assert_eq!(sizes, vec![96, 800, 40, 64]);
    assert_eq!(metadata[1].subpartition_key, "f69fd263467d47ac9754d9e0a28c15653db44be945add58e31407c746951c56d");
    assert_eq!(metadata[2].subpartition_key, "xe_1");
    assert_eq!(metadata[3].subpartition_key, "xf");
    assert_eq!(
        metadata[0].subpartition_key,
        "88d4266fd4e6338d13b845fcf289579d209c897823b9217da3e161936f031589"
    );
}

#[test]
fn subpartition_keys() {
    assert_eq!(key_of(&vec!["abc_09".to_string()]), "xabc_09");
    assert_eq!(
        key_of(&vec!["Ab".to_string()]),
        "025b5573cb68f3af8b09ad8f678555ecb185f7832b0d156800f40c300649a56c"
    );
    assert_eq!(
        key_of(&vec!["colA".to_string(), "colB".to_string()]),
        "da8fd1d7ed8b00653f022af63ba09da91013b2cab9e7f68dd77569ad811ed474"
    );
    assert_eq!(
        key_of(&vec!["a".to_string(), "b".to_string()]),
        "fb8e20fc2e4c3f248c60c39bd652f3c1347298bb977b8b4d5903b85055620603"
    );
    assert!(is_column_name_filesystem_safe("a"));
    assert!(is_column_name_filesystem_safe("a_9z"));
    assert!(is_column_name_filesystem_safe(&"x".repeat(64)));
    assert!(!is_column_name_filesystem_safe(&"x".repeat(65)));
    assert!(!is_column_name_filesystem_safe(""));
    assert!(!is_column_name_filesystem_safe("A"));
    assert!(!is_column_name_filesystem_safe("a-b"));
    assert!(!is_column_name_filesystem_safe("é"));
}

#[test]
fn columns_are_laid_out_by_name() {
    let sorted = in_layout_order(vec![
        int_column("b", 1),
        int_column("a", 2),
        int_column("ab", 3),
        int_column("B", 4),
    ]);
    assert_eq!(names(&sorted), vec!["B", "a", "ab", "b"]);
    assert_eq!(sorted[1].len(), 2);
}

#[test]
fn task_queue_hands_out_tasks_in_order() {
    let mut queue = TaskQueue::new();
    assert!(matches!(queue.await_task(), Dispatch::Wait));
    queue.schedule(task(1, true, false));
    queue.schedule(task(2, false, false));
    queue.schedule(task(3, false, true));
    assert_eq!(queue.len(), 3);
    match queue.await_task() {
        Dispatch::Run { task, wake_another } => {
            assert_eq!(task.id, 2);
            assert!(wake_another);
        }
        _ => panic!("expected a task"),
    }
    assert_eq!(queue.len(), 1);
    let shared = match queue.await_task() {
        Dispatch::Run { task, wake_another } => {
            assert_eq!(task.id, 3);
            assert!(wake_another);
            task
        }
        _ => panic!("expected a task"),
    };
    assert_eq!(queue.len(), 1);
    shared.execute();
    assert!(matches!(queue.await_task(), Dispatch::Idle));
    assert_eq!(queue.len(), 0);
    queue.schedule(task(4, false, false));
    match queue.await_task() {
        Dispatch::Run { task, wake_another } => {
            assert_eq!(task.id, 4);
            assert!(!wake_another);
        }
        _ => panic!("expected a task"),
    }
    queue.schedule(task(5, false, false));
    queue.drop_pending_tasks();
    assert!(matches!(queue.await_task(), Dispatch::Wait));
}

#[test]
fn lru_evicts_the_least_recently_used() {
    let mut lru = Lru::default();
    assert!(lru.evict().is_none());
    let a = ColumnLocator::new("t", 0, "a");
    let b = ColumnLocator::new("t", 0, "b");
    let c = ColumnLocator::new("t", 1, "a");
    lru.touch(&a);
    lru.touch(&b);
    lru.touch(&c);
    lru.touch(&a);
    assert_eq!(lru.len(), 3);
    assert_eq!(lru.evict(), Some(b.clone()));
    lru.remove(&a);
    assert_eq!(lru.evict(), Some(c));
    assert!(lru.evict().is_none());
    assert!(a.same(&a.copy()));
    assert!(!a.same(&b));
}

#[test]
fn new_tables_are_listed_once() {
    let mut db = InnerLocustDB::new(&options(1000));
    assert_eq!(db.tables.len(), 1);
    assert_eq!(db.tables[0].name(), "_meta_tables");
    db.ingest_single("t", int_row(1), 100);
    db.ingest_single("t", int_row(2), 200);
    db.ingest_single("u", int_row(3), 300);
    assert_eq!(db.tables.len(), 3);
    assert_eq!(db.find_table("u"), Some(2));
    assert_eq!(db.find_table("w"), None);
    assert_eq!(db.tables[0].buffer.len(), 2);
    assert_eq!(
        buffer_column(&db.tables[0], "timestamp"),
        vec![RawVal::Int(100), RawVal::Int(300)]
    );
    assert_eq!(
        buffer_column(&db.tables[0], "name"),
        vec![RawVal::Str("t".to_string()), RawVal::Str("u".to_string())]
    );
    assert_eq!(buffer_column(&db.tables[1], "v"), vec![RawVal::Int(1), RawVal::Int(2)]);
    assert_eq!(db.create_if_empty_no_ingest("t", 5), None);
    assert_eq!(db.create_if_empty_no_ingest("z", 5), Some((5, "z".to_string())));
    assert_eq!(db.opts().partition_combine_factor, 4);
}

#[test]
fn batches_of_events_reach_their_tables() {
    let mut db = InnerLocustDB::new(&options(1000));
    let events = EventBuffer {
        tables: vec![
            (
                "t".to_string(),
                TableBuffer {
                    len: 3,
                    columns: vec![
                        ("i".to_string(), ColumnData::I64(vec![1, 2, 3])),
                        ("s".to_string(), ColumnData::SparseI64(vec![(1, 7)])),
                    ],
                },
            ),
            ("u".to_string(), TableBuffer { len: 2, columns: vec![("e".to_string(), ColumnData::Empty)] }),
        ],
    };
    assert!(events.is_valid());
    assert_eq!(db.ingest_efficient(events, 42), 2);
    assert_eq!(db.tables.len(), 3);
    assert_eq!(
        buffer_column(&db.tables[1], "s"),
        vec![RawVal::Null, RawVal::Int(7), RawVal::Null]
    );
    assert_eq!(buffer_column(&db.tables[2], "e"), vec![RawVal::Null, RawVal::Null]);
    assert_eq!(
        buffer_column(&db.tables[0], "timestamp"),
        vec![RawVal::Int(42), RawVal::Int(42)]
    );
    assert_eq!(
        buffer_column(&db.tables[0], "name"),
        vec![RawVal::Str("t".to_string()), RawVal::Str("u".to_string())]
    );

    let again = EventBuffer {
        tables: vec![(
            "t".to_string(),
            TableBuffer { len: 1, columns: vec![("i".to_string(), ColumnData::I64(vec![4]))] },
        )],
    };
    assert_eq!(db.ingest_efficient(again, 43), 0);
    assert_eq!(db.tables[0].buffer.len(), 2);
    assert_eq!(db.tables[1].buffer.len(), 4);
}

#[test]
fn ingestion_waits_while_the_log_is_over_its_limit() {
    let mut db = InnerLocustDB::new(&options(1000));
    assert!(!db.ingestion_blocked());
    assert_eq!(db.enforce_wal_limit(), WalLimitAction::Sleep(1000));
    db.record_wal_bytes(1000);
    assert!(!db.ingestion_blocked());
    db.record_wal_bytes(1);
    assert!(db.ingestion_blocked());
    assert_eq!(db.enforce_wal_limit(), WalLimitAction::Flush);
    db.record_wal_bytes(u64::MAX);
    assert_eq!(db.wal_size, u64::MAX);
    db.ingest_single("t", int_row(1), 0);
    let flushed = db.wal_flush().unwrap();
    assert_eq!(db.wal_size, 0);
    assert!(!db.ingestion_blocked());
    assert_eq!(flushed.per_table.len(), 2);
    assert!(flushed.per_table.iter().all(|(sealed, due)| sealed.is_some() && due.is_none()));
    assert!(db.running);
    db.stop();
    assert!(!db.running);
}

#[test]
fn flush_steps_write_the_metastore_before_deleting() {
    let mut step = FlushStep::FreezeBuffers;
    let mut seen = vec![step];
    while step != FlushStep::Done {
        step = step.next();
        seen.push(step);
    }
    assert_eq!(
        seen,
        vec![
            FlushStep::FreezeBuffers,
            FlushStep::BatchTables,
            FlushStep::PersistPartitions,
            FlushStep::Compact,
            FlushStep::PersistMetastore,
            FlushStep::DeleteOrphanedPartitions,
            FlushStep::DeleteWalSegments,
            FlushStep::Done,
        ]
    );
    assert_eq!(FlushStep::Done.next(), FlushStep::Done);
}

#[test]
fn four_batches_are_compacted_into_one_partition() {
    let mut db = InnerLocustDB::new(&options(1000));
    let mut last = None;
    for batch in 0..4 {
        for row in 0..3 {
            db.ingest_single("t", int_row(batch * 3 + row), 7);
        }
        last = Some(db.wal_flush().unwrap());
    }
    let flushed = last.unwrap();
    assert_eq!(db.tables[1].partitions.len(), 4);
    assert_eq!(flushed.per_table.len(), 2);
    assert!(flushed.per_table[0].0.is_none());
    assert!(flushed.per_table[0].1.is_none());
    let (new_partitions, compactions) = flushed.into_parts();
    assert_eq!(new_partitions.len(), 1);
    let (metadata, subpartitions) = &new_partitions[0];
    assert_eq!(metadata.id, 3);
    assert_eq!(metadata.tablename, "t");
    assert_eq!(metadata.len, 3);
    assert_eq!(metadata.offset, 9);
    assert_eq!(metadata.subpartitions.len(), 1);
    assert_eq!(metadata.subpartitions[0].subpartition_key, "all");
    assert_eq!(metadata.column_name_to_subpartition_index, vec![("v".to_string(), 0)]);
    assert_eq!(subpartitions[0].len(), 1);

    assert_eq!(compactions.len(), 1);
    let compaction = &compactions[0];
    assert_eq!(compaction.table, "t");
    assert_eq!(compaction.id, 4);
    assert_eq!(compaction.range, (0, 12));
    assert_eq!(compaction.parts, vec![0, 1, 2, 3]);

    let data = vec![("v".to_string(), BasicTypeColumn::Int((0..12).collect()))];
    let compacted = db.compact(1, compaction.id, compaction.range, &compaction.parts, data);
    assert!(matches!(compacted, Ok(Some(_))));
    assert_eq!(db.tables[1].partitions.len(), 1);
    let partition = &db.tables[1].partitions[0];
    assert_eq!((partition.id, partition.offset, partition.len), (4, 0, 12));
    match partition.columns[0].column.as_ref().unwrap().data() {
        Encoding::Int(values) => assert_eq!(*values, (0..12).collect::<Vec<i64>>()),
        _ => panic!("expected integers"),
    }
    assert!(db.tables[1].plan_compaction(4).is_none());
}

#[test]
fn compaction_checks_the_number_of_rows() {
    let mut db = InnerLocustDB::new(&options(1000));
    db.ingest_single("t", int_row(1), 7);
    db.wal_flush().unwrap();
    let id = db.tables[1].next_partition_id();
    let short = vec![("v".to_string(), BasicTypeColumn::Null(2))];
    assert!(db.compact(1, id, (0, 1), &[0], short).is_err());
    assert_eq!(db.tables[1].partitions[0].id, 0);
    let stale = vec![("v".to_string(), BasicTypeColumn::Null(1))];
    assert!(matches!(db.compact(1, id, (0, 1), &[5], stale), Ok(None)));
    assert_eq!(db.tables[1].partitions.len(), 1);
}

#[test]
fn size_classes_grow_with_the_factor() {
    assert_eq!(class_of(0, 4), 0);
    assert_eq!(class_of(3, 4), 0);
    assert_eq!(class_of(4, 4), 1);
    assert_eq!(class_of(15, 4), 1);
    assert_eq!(class_of(16, 4), 2);
    assert_eq!(class_of(100, 1), 0);
    let mut table = Table::new("t");
    for rows in [3, 5, 6, 7, 4] {
        for _ in 0..rows {
            table.ingest(int_row(0));
        }
        table.freeze_buffer();
        assert_eq!(table.batch().unwrap().is_some(), true);
    }
    assert_eq!(table.batch().unwrap(), None);
    assert_eq!(table.plan_compaction(4), Some(((3, 25), vec![1, 2, 3, 4])));
    assert_eq!(table.plan_compaction(1), None);
    assert_eq!(table.plan_compaction(6), None);
}

#[test]
fn memory_limit_evicts_least_recently_used_columns() {
    let mut opts = options(1000);
    opts.mem_size_limit_tables = 100;
    let mut db = InnerLocustDB::new(&opts);
    for batch in 0..3 {
        for row in 0..10 {
            db.ingest_single("t", int_row(batch * 10 + row), 7);
        }
        db.wal_flush().unwrap();
    }
    let meta_bytes = 8 + (8 + 1);
    assert_eq!(db.mem_usage(), 3 * 80 + meta_bytes);
    assert_eq!(db.enforce_mem_limit(), 3 * 80 + meta_bytes);
    for id in [2, 0, 1] {
        db.make_evictable("t", id, &["v".to_string()]);
    }
    assert_eq!(db.lru.len(), 3);
    db.make_evictable("t", 2, &["v".to_string(), "v".to_string()]);
    assert_eq!(db.lru.len(), 3);
    assert!(db.lru.evict().unwrap().same(&ColumnLocator::new("t", 0, "v")));
    db.make_evictable("t", 0, &["v".to_string()]);
    db.make_evictable("t", 1, &["v".to_string()]);
    db.lru.touch(&ColumnLocator::new("t", 1, "v"));
    let after = db.enforce_mem_limit();
    assert_eq!(after, 80 + meta_bytes);
    assert_eq!(db.mem_usage(), 80 + meta_bytes);
    assert_eq!(db.lru.len(), 1);
    assert!(db.tables[1].partitions[2].columns[0].column.is_none());
    assert!(db.tables[1].partitions[0].columns[0].column.is_none());
    assert!(db.tables[1].partitions[1].columns[0].column.is_some());

    let mut col = MixedCol::new();
    col.push_ints((0..10).collect());
    db.restore(0, col.finalize("v"));
    assert!(db.tables[1].partitions[0].columns[0].column.is_some());
    assert_eq!(db.lru.len(), 2);
    assert_eq!(db.evict_cache(), 160);
    assert_eq!(db.lru.len(), 0);
    assert_eq!(db.evict_one(), None);
}

#[test]
fn a_flush_seals_every_table_that_has_rows() {
    let mut db = InnerLocustDB::new(&options(1000));
    db.ingest_single("a", int_row(1), 7);
    db.ingest_single("b", int_row(2), 8);
    let (sealed, due) = db.wal_flush().unwrap().into_parts();
    let names: Vec<&str> = sealed.iter().map(|p| p.0.tablename.as_str()).collect();
    assert_eq!(names, vec!["_meta_tables", "a", "b"]);
    assert!(due.is_empty());
    db.ingest_single("b", int_row(3), 9);
    let second = db.wal_flush().unwrap();
    assert!(second.per_table[0].0.is_none());
    assert!(second.per_table[1].0.is_none());
    let (sealed, _) = second.into_parts();
    let names: Vec<&str> = sealed.iter().map(|p| p.0.tablename.as_str()).collect();
    assert_eq!(names, vec!["b"]);
    assert_eq!(sealed[0].0.id, 1);
    assert_eq!(sealed[0].0.offset, 1);
    let (sealed, due) = db.wal_flush().unwrap().into_parts();
    assert!(sealed.is_empty());
    assert!(due.is_empty());
    for table in &db.tables {
        assert!(table.frozen_buffer.is_none());
        assert_eq!(table.buffer.len(), 0);
    }
}

#[test]
fn a_table_freezes_one_buffer_at_a_time() {
    let mut table = Table::new("t");
    table.freeze_buffer();
    assert!(table.frozen_buffer.is_none());
    table.ingest(int_row(1));
    table.freeze_buffer();
    assert_eq!(table.frozen_buffer.as_ref().unwrap().len(), 1);
    assert_eq!(table.buffer.len(), 0);
    table.ingest(int_row(2));
    table.ingest(int_row(3));
    table.freeze_buffer();
    assert_eq!(table.frozen_buffer.as_ref().unwrap().len(), 1);
    assert_eq!(table.buffer.len(), 2);
    assert_eq!(table.heap_size_of_children(), 3 * 32);
    assert_eq!(table.batch().unwrap(), Some(0));
    assert_eq!(table.heap_size_of_children(), 8 + 2 * 32);
    table.freeze_buffer();
    assert_eq!(table.batch().unwrap(), Some(1));
    assert_eq!(table.partitions[1].offset, 1);
    assert_eq!(table.partitions[1].len, 2);
    assert_eq!(table.name(), "t");

    let victim = ColumnLocator::new("t", 1, "v");
    assert_eq!(table.evict(&victim), 16);
    assert_eq!(table.evict(&victim), 0);
    assert_eq!(table.heap_size_of_children(), 8);
    assert!(table.partitions[1].columns[0].column.is_none());
    table.restore(1, &int_column("v", 2));
    assert_eq!(table.heap_size_of_children(), 24);
    table.restore(1, &int_column("w", 2));
    table.restore(7, &int_column("v", 2));
    assert_eq!(table.heap_size_of_children(), 24);
}

#[test]
fn a_snapshot_shows_partitions_and_buffers() {
    let mut db = InnerLocustDB::new(&options(1000));
    db.ingest_single("t", vec![("v".to_string(), RawVal::Int(1)), ("w".to_string(), RawVal::Int(2))], 7);
    db.wal_flush().unwrap();
    db.ingest_single("t", vec![("v".to_string(), RawVal::Int(3)), ("w".to_string(), RawVal::Int(4))], 7);
    assert!(db.snapshot("missing", None).is_none());
    let all = db.snapshot("t", None).unwrap();
    assert_eq!(all.len(), 2);
    assert_eq!((all[0].id, all[0].offset, all[0].len), (0, 0, 1));
    assert_eq!((all[1].id, all[1].offset, all[1].len), (1, 1, 1));
    assert_eq!(all[1].columns.len(), 2);
    let filter = vec!["w".to_string()];
    let some = db.snapshot("t", Some(&filter)).unwrap();
    assert_eq!(some[0].columns.len(), 2);
    assert_eq!(some[1].columns.len(), 1);
    assert_eq!(some[1].columns[0].name, "w");
    match some[1].columns[0].column.as_ref().unwrap().data() {
        Encoding::Int(values) => assert_eq!(*values, vec![4]),
        _ => panic!("expected integers"),
    }
    let other = vec!["x".to_string()];
    let fallback = db.snapshot("t", Some(&other)).unwrap();
    assert_eq!(fallback[1].columns.len(), 1);
    assert_eq!(fallback[1].columns[0].name, "v");
    let full = db.full_snapshot();
    assert_eq!(full.len(), 2);
    assert_eq!(full[0].len(), 1);
    assert_eq!(full[1].len(), 2);
    assert_eq!(db.tables[1].partitions.len(), 1);
}

#[test]
fn replaying_a_batch_gives_the_tables_of_the_first_run() {
    let batch = || EventBuffer {
        tables: vec![
            (
                "t".to_string(),
                TableBuffer { len: 2, columns: vec![("i".to_string(), ColumnData::I64(vec![1, 2]))] },
            ),
            (
                "_meta_tables".to_string(),
                TableBuffer {
                    len: 1,
                    columns: vec![
                        ("timestamp".to_string(), ColumnData::I64(vec![5])),
                        ("name".to_string(), ColumnData::String(vec!["t".to_string()])),
                    ],
                },
            ),
        ],
    };
    let mut first = InnerLocustDB::new(&options(1000));
    let fresh = EventBuffer {
        tables: vec![(
            "t".to_string(),
            TableBuffer { len: 2, columns: vec![("i".to_string(), ColumnData::I64(vec![1, 2]))] },
        )],
    };
    first.ingest_efficient(fresh, 5);
    let mut restarted = InnerLocustDB::new(&options(1000));
    restarted.replay(batch());
    assert_eq!(restarted.tables.len(), first.tables.len());
    for (a, b) in first.tables.iter().zip(restarted.tables.iter()) {
        assert_eq!(a.name(), b.name());
        assert_eq!(a.buffer.len(), b.buffer.len());
        for (name, col) in &a.buffer.buffer {
            assert_eq!(col.clone().into_values(), buffer_column(b, name));
        }
    }
}

#[test]
fn a_task_for_several_workers_stays_in_the_queue() {
    let mut queue = TaskQueue::new();
    queue.schedule(task(1, false, false));
    assert!(queue.hand_out(task(2, true, true), true, true).is_none());
    assert_eq!(queue.len(), 1);
    match queue.hand_out(task(3, false, false), false, false) {
        Some(Dispatch::Run { task, wake_another }) => {
            assert_eq!(task.id, 3);
            assert!(wake_another);
        }
        _ => panic!("expected a task"),
    }
    assert_eq!(queue.len(), 1);
    match queue.hand_out(task(4, false, true), false, true) {
        Some(Dispatch::Run { task, wake_another }) => {
            assert_eq!(task.id, 4);
            assert!(wake_another);
        }
        _ => panic!("expected a task"),
    }
    assert_eq!(queue.len(), 2);
    queue.drop_pending_tasks();
    match queue.hand_out(task(5, false, false), false, false) {
        Some(Dispatch::Run { task, wake_another }) => {
            assert_eq!(task.id, 5);
            assert!(!wake_another);
        }
        _ => panic!("expected a task"),
    }
    assert_eq!(queue.len(), 0);
}

#[test]
fn a_snapshot_continues_ids_and_offsets() {
    let mut table = Table::new("t");
    table.ingest(int_row(1));
    table.ingest(int_row(2));
    table.freeze_buffer();
    table.batch().unwrap();
    table.ingest(int_row(3));
    table.freeze_buffer();
    table.ingest(int_row(4));
    let shown = table.snapshot(None);
    let places: Vec<(u64, usize, usize)> = shown.iter().map(|p| (p.id, p.offset, p.len)).collect();
    assert_eq!(places, vec![(0, 0, 2), (1, 2, 1), (2, 3, 1)]);
}

#[test]
fn a_batch_names_every_table_once() {
    let rows = || TableBuffer { len: 1, columns: vec![("i".to_string(), ColumnData::I64(vec![1]))] };
    let twice = EventBuffer { tables: vec![("t".to_string(), rows()), ("t".to_string(), rows())] };
    assert!(!twice.is_valid());
    let once = EventBuffer { tables: vec![("t".to_string(), rows()), ("u".to_string(), rows())] };
    assert!(once.is_valid());
    assert_eq!(once.find("u"), Some(1));
    assert_eq!(once.find("v"), None);
}

#[test]
fn the_listing_of_new_tables_replaces_a_listing_that_was_sent() {
    let mut db = InnerLocustDB::new(&options(1000));
    let mut events = EventBuffer {
        tables: vec![
            (
                "_meta_tables".to_string(),
                TableBuffer { len: 1, columns: vec![("name".to_string(), ColumnData::String(vec!["x".to_string()]))] },
            ),
            (
                "t".to_string(),
                TableBuffer { len: 1, columns: vec![("i".to_string(), ColumnData::I64(vec![1]))] },
            ),
        ],
    };
    assert_eq!(db.list_new_tables(&mut events, 9), 1);
    assert!(events.is_valid());
    assert_eq!(db.tables.len(), 1);
    let names: Vec<&str> = events.tables.iter().map(|t| t.0.as_str()).collect();
    assert_eq!(names, vec!["t", "_meta_tables"]);
    assert_eq!(db.finish_ingest(events, Ok(10)).map_err(|e| e.message().clone()), Ok(()));
    assert_eq!(db.wal_size, 10);
    assert_eq!(db.tables[0].buffer.len(), 1);
    assert_eq!(buffer_column(&db.tables[0], "name"), vec![RawVal::Str("t".to_string())]);
    assert_eq!(buffer_column(&db.tables[0], "timestamp"), vec![RawVal::Int(9)]);
    assert_eq!(buffer_column(&db.tables[1], "i"), vec![RawVal::Int(1)]);
}

#[test]
fn a_batch_that_could_not_be_logged_reaches_no_buffer() {
    let mut db = InnerLocustDB::new(&options(1000));
    db.ingest_single("t", int_row(1), 7);
    db.record_wal_bytes(5);
    let mut events = EventBuffer {
        tables: vec![
            (
                "t".to_string(),
                TableBuffer { len: 2, columns: vec![("v".to_string(), ColumnData::I64(vec![2, 3]))] },
            ),
            (
                "u".to_string(),
                TableBuffer { len: 1, columns: vec![("v".to_string(), ColumnData::I64(vec![4]))] },
            ),
        ],
    };
    assert_eq!(db.new_table_names(&events), vec!["u".to_string()]);
    assert_eq!(db.list_new_tables(&mut events, 8), 1);
    let failure = locustdb::errors::QueryError::FatalError("disk full".to_string());
    match db.finish_ingest(events, Err(failure)) {
        Err(error) => assert_eq!(error.message(), "disk full"),
        Ok(()) => panic!("expected a failure"),
    }
    assert_eq!(db.wal_size, 5);
    assert_eq!(db.tables.len(), 2);
    assert_eq!(db.tables[1].buffer.len(), 1);
    assert_eq!(buffer_column(&db.tables[1], "v"), vec![RawVal::Int(1)]);
    assert_eq!(db.tables[0].buffer.len(), 1);
}

#[test]
fn rows_of_a_table_without_columns_change_nothing() {
    let mut db = InnerLocustDB::new(&options(1000));
    db.ingest_single("t", int_row(1), 7);
    let events = EventBuffer { tables: vec![("t".to_string(), TableBuffer { len: 3, columns: vec![] })] };
    assert!(events.is_valid());
    assert_eq!(db.ingest_efficient(events, 8), 0);
    assert_eq!(db.tables[1].buffer.len(), 1);
    assert_eq!(buffer_column(&db.tables[1], "v"), vec![RawVal::Int(1)]);
}

#[test]
fn a_database_keeps_the_options_it_was_opened_with() {
    let mut opts = options(77);
    opts.db_path = Some("/data/db".to_string());
    opts.max_wal_size_bytes = 5;
    let db = InnerLocustDB::new(&opts);
    assert_eq!(db.opts().max_partition_size_bytes, 77);
    assert_eq!(db.opts().max_wal_size_bytes, 5);
    assert_eq!(db.opts().db_path, Some("/data/db".to_string()));
    assert_eq!(db.opts().partition_combine_factor, 4);
    let copy = opts.clone();
    assert_eq!(copy.mem_size_limit_tables, opts.mem_size_limit_tables);
    assert_eq!(copy.db_path, opts.db_path);
}

fn recorded(table: &str, id: u64, offset: usize, len: usize, columns: &[&str]) -> PartitionMetadata {
    PartitionMetadata {
        id,
        tablename: table.to_string(),
        len,
        offset,
        subpartitions: vec![],
        column_name_to_subpartition_index: columns.iter().map(|c| (c.to_string(), 0)).collect(),
    }
}

#[test]
fn a_restart_takes_up_the_partitions_that_were_recorded() {
    let mut db = InnerLocustDB::new(&options(1000));
    assert!(db.restore_partition(&recorded("t", 0, 0, 10, &["v", "w"])).is_ok());
    assert!(db.restore_partition(&recorded("t", 3, 10, 5, &["v"])).is_ok());
    assert!(db.restore_partition(&recorded("u", 1, 0, 2, &["x"])).is_ok());
    assert!(db.restore_partition(&recorded("t", 4, usize::MAX, 1, &["v"])).is_err());
    assert!(db.restore_partition(&recorded("t", u64::MAX, 15, 1, &["v"])).is_err());
    assert_eq!(db.tables.len(), 3);
    let table = &db.tables[1];
    assert_eq!(table.name(), "t");
    assert_eq!(table.next_partition_id, 4);
    let places: Vec<(u64, usize, usize)> =
        table.partitions.iter().map(|p| (p.id, p.offset, p.len)).collect();
    assert_eq!(places, vec![(0, 0, 10), (3, 10, 5)]);
    assert_eq!(table.partitions[0].columns[1].name, "w");
    assert!(table.partitions[0].columns.iter().all(|c| c.column.is_none() && c.size_bytes == 0));
    assert_eq!(db.mem_usage(), 0);
    assert_eq!(db.lru.len(), 0);

    let mut col = MixedCol::new();
    col.push_ints((0..10).collect());
    db.restore(0, col.finalize("v"));
    assert!(db.tables[1].partitions[0].columns[0].column.is_some());
    assert_eq!(db.tables[1].partitions[0].columns[0].size_bytes, 80);
    assert!(db.tables[1].partitions[0].columns[1].column.is_none());
    assert!(db.tables[1].partitions[1].columns[0].column.is_none());
    assert!(db.tables[1].holds_column(3, "v"));
    assert!(!db.tables[1].holds_column(3, "w"));
    assert_eq!(db.mem_usage(), 80);
    assert_eq!(db.lru.len(), 1);
    assert_eq!(db.evict_one(), Some(80));
    assert_eq!(db.mem_usage(), 0);
}

#[test]
fn a_restart_finds_the_rows_that_were_logged() {
    let batch = |table: &str, values: Vec<i64>| EventBuffer {
        tables: vec![(
            table.to_string(),
            TableBuffer {
                len: values.len() as u64,
                columns: vec![("v".to_string(), ColumnData::I64(values))],
            },
        )],
    };
    let mut running = InnerLocustDB::new(&options(1000));
    let mut log = vec![];
    for (table, values, written) in [
        ("t", vec![1, 2], true),
        ("u", vec![3], true),
        ("w", vec![9], false),
        ("t", vec![4], true),
    ] {
        let mut staged = batch(table, values);
        running.list_new_tables(&mut staged, 5);
        let copy = EventBuffer {
            tables: staged
                .tables
                .iter()
                .map(|(name, rows)| {
                    let columns = rows
                        .columns
                        .iter()
                        .map(|(column, data)| {
                            let data = match data {
                                ColumnData::I64(values) => ColumnData::I64(values.clone()),
                                ColumnData::String(values) => ColumnData::String(values.clone()),
                                _ => ColumnData::Empty,
                            };
                            (column.clone(), data)
                        })
                        .collect();
                    (name.clone(), TableBuffer { len: rows.len, columns })
                })
                .collect(),
        };
        if written {
            assert!(running.finish_ingest(staged, Ok(1)).is_ok());
            log.push(copy);
        } else {
            let failure = locustdb::errors::QueryError::FatalError("disk full".to_string());
            assert!(running.finish_ingest(staged, Err(failure)).is_err());
        }
    }
    let mut restarted = InnerLocustDB::new(&options(1000));
    restarted.replay_all(log);
    assert_eq!(restarted.tables.len(), 3);
    assert_eq!(restarted.tables.len(), running.tables.len());
    for (a, b) in running.tables.iter().zip(restarted.tables.iter()) {
        assert_eq!(a.name(), b.name());
        assert_eq!(a.buffer.len(), b.buffer.len());
        for (name, col) in &a.buffer.buffer {
            assert_eq!(col.clone().into_values(), buffer_column(b, name));
        }
    }
    assert_eq!(buffer_column(&restarted.tables[1], "v"), vec![RawVal::Int(1), RawVal::Int(2), RawVal::Int(4)]);
    assert_eq!(restarted.tables[0].buffer.len(), 2);
}
