use locustdb::engine::batch_merging::MergeOp;
use locustdb::engine::comparator::{CmpGreaterThan, CmpLessThan};
use locustdb::engine::operators::hashmap_grouping::HashMapGrouping;
use locustdb::engine::operators::merge::Merge;
use locustdb::engine::operators::merge_deduplicate::{merge_deduplicate, MergeDeduplicate};
use locustdb::engine::scratchpad::{BufferRef, Scratchpad, VecOperator};
use locustdb::errors::QueryError;
use std::marker::PhantomData;

#[test]
fn merge_operator_writes_rows_and_ops() {
    let mut scratchpad = Scratchpad::new(4);
    assert_eq!(scratchpad.len(), 4);
    scratchpad.set(&BufferRef::new(0), vec![1i64, 4, 6]);
    scratchpad.set(&BufferRef::new(1), vec![2i64, 4]);
    let mut operator = Merge::<i64, CmpLessThan> {
        left: BufferRef::new(0),
        right: BufferRef::new(1),
        merged: BufferRef::new(2),
        merge_ops: BufferRef::new(3),
        limit: 4,
        c: PhantomData,
    };
    assert!(operator.execute(false, &mut scratchpad).is_ok());
    assert_eq!(scratchpad.get(&BufferRef::<i64>::new(2)).unwrap(), &[1, 2, 4, 4]);
    assert_eq!(scratchpad.get(&BufferRef::<u8>::new(3)).unwrap(), &[1, 0, 1, 0]);
    assert_eq!(operator.inputs(), vec![0, 1]);
    assert_eq!(operator.outputs(), vec![2, 3]);
    assert!(!operator.can_stream_input(0));
    assert!(!operator.can_stream_output(2));
    assert!(!operator.can_block_output());
    assert!(operator.allocates());
    assert_eq!(operator.display_op(false), "merge(0, 1)");
}

#[test]
fn merge_operator_rejects_buffers_of_another_type() {
    let mut scratchpad = Scratchpad::new(4);
    scratchpad.set(&BufferRef::new(0), vec![1i64]);
    scratchpad.set(&BufferRef::new(1), vec!["a"]);
    let mut operator = Merge::<i64, CmpGreaterThan> {
        left: BufferRef::new(0),
        right: BufferRef::new(1),
        merged: BufferRef::new(2),
        merge_ops: BufferRef::new(3),
        limit: 4,
        c: PhantomData,
    };
    assert!(matches!(operator.execute(false, &mut scratchpad), Err(QueryError::TypeError(_))));
    assert_eq!(scratchpad.get(&BufferRef::<&str>::new(1)).unwrap(), &["a"]);
    operator.merged = BufferRef::new(9);
    assert!(matches!(operator.execute(false, &mut scratchpad), Err(QueryError::TypeError(_))));
    assert!(scratchpad.get(&BufferRef::<i64>::new(7)).is_err());
}

#[test]
fn merge_deduplicate_operator_writes_keys_and_ops() {
    let mut scratchpad = Scratchpad::new(4);
    scratchpad.set(&BufferRef::new(0), vec!["a", "c"]);
    scratchpad.set(&BufferRef::new(1), vec!["b", "c", "d"]);
    let mut operator = MergeDeduplicate::<&str, CmpLessThan> {
        left: BufferRef::new(0),
        right: BufferRef::new(1),
        deduplicated: BufferRef::new(2),
        merge_ops: BufferRef::new(3),
        comparator: PhantomData,
    };
    operator.init(5, 2, &mut scratchpad);
    assert!(operator.execute(false, &mut scratchpad).is_ok());
    assert_eq!(scratchpad.get(&BufferRef::<&str>::new(2)).unwrap(), &["a", "b", "c", "d"]);
    assert_eq!(
        scratchpad.get(&BufferRef::<MergeOp>::new(3)).unwrap(),
        &[
            MergeOp::TakeLeft,
            MergeOp::TakeRight,
            MergeOp::TakeLeft,
            MergeOp::MergeRight,
            MergeOp::TakeRight,
        ]
    );
    assert_eq!(operator.display_op(true), "merge_deduplicate(0, 1)");
    assert_eq!(operator.outputs(), vec![2, 3]);
}

#[test]
fn merge_deduplicate_in_descending_order() {
    let (keys, ops) = merge_deduplicate::<i64, CmpGreaterThan>(&[9, 5, 1], &[9, 7, 1, 0]);
    assert_eq!(keys, vec![9, 7, 5, 1, 0]);
    assert_eq!(
        ops,
        vec![
            MergeOp::TakeLeft,
            MergeOp::MergeRight,
            MergeOp::TakeRight,
            MergeOp::TakeLeft,
            MergeOp::TakeLeft,
            MergeOp::MergeRight,
            MergeOp::TakeRight,
        ]
    );
}

#[test]
fn hashmap_grouping_assigns_ids_in_order_of_first_use() {
    let mut scratchpad = Scratchpad::new(4);
    let mut operator = HashMapGrouping::<i64>::boxed(
        BufferRef::new(0),
        BufferRef::new(1),
        BufferRef::new(2),
        BufferRef::new(3),
        0,
    );
    scratchpad.set(&BufferRef::new(0), vec![30i64, 10, 30, 20, 10]);
    operator.init(8, 5, &mut scratchpad);
    assert_eq!(scratchpad.get_const(3), None);
    assert!(operator.execute(true, &mut scratchpad).is_ok());
    assert_eq!(scratchpad.get(&BufferRef::<i64>::new(1)).unwrap(), &[30, 10, 20]);
    assert_eq!(scratchpad.get(&BufferRef::<u32>::new(2)).unwrap(), &[0, 1, 0, 2, 1]);
    assert_eq!(scratchpad.get_const(3), Some(3));

    scratchpad.set(&BufferRef::new(0), vec![20i64, 40, 30]);
    assert!(operator.execute(true, &mut scratchpad).is_ok());
    assert_eq!(scratchpad.get(&BufferRef::<i64>::new(1)).unwrap(), &[30, 10, 20, 40]);
    assert_eq!(scratchpad.get(&BufferRef::<u32>::new(2)).unwrap(), &[2, 3, 0]);

    scratchpad.set(&BufferRef::new(0), vec![10i64]);
    assert!(operator.execute(false, &mut scratchpad).is_ok());
    assert_eq!(scratchpad.get(&BufferRef::<u32>::new(2)).unwrap(), &[2, 3, 0, 1]);

    assert_eq!(operator.inputs(), vec![0]);
    assert_eq!(operator.outputs(), vec![1, 2, 3]);
    assert!(operator.can_stream_input(0));
    assert!(operator.can_stream_output(2));
    assert!(!operator.can_stream_output(1));
    assert!(operator.can_block_output());
    assert!(operator.allocates());
    assert_eq!(operator.display_op(false), "hashmap_grouping(0)");
}

#[test]
fn hashmap_grouping_groups_strings() {
    let mut scratchpad = Scratchpad::new(4);
    let mut operator = HashMapGrouping::<&str>::new(
        BufferRef::new(0),
        BufferRef::new(1),
        BufferRef::new(2),
        BufferRef::new(3),
    );
    scratchpad.set(&BufferRef::new(0), vec!["b", "a", "b"]);
    operator.init(3, 3, &mut scratchpad);
    assert!(operator.execute(true, &mut scratchpad).is_ok());
    assert_eq!(scratchpad.get(&BufferRef::<&str>::new(1)).unwrap(), &["b", "a"]);
    assert_eq!(scratchpad.get(&BufferRef::<u32>::new(2)).unwrap(), &[0, 1, 0]);
    assert_eq!(scratchpad.get_const(3), Some(2));
    assert_eq!(scratchpad.get_const(9), None);
}

#[test]
fn hashmap_grouping_rejects_missing_buffers() {
    let mut scratchpad = Scratchpad::new(2);
    let mut operator = HashMapGrouping::<i64>::boxed(
        BufferRef::new(0),
        BufferRef::new(1),
        BufferRef::new(2),
        BufferRef::new(3),
        0,
    );
    assert!(matches!(operator.execute(true, &mut scratchpad), Err(QueryError::TypeError(_))));
}

#[test]
fn scratchpad_takes_buffers_out() {
    let mut scratchpad = Scratchpad::new(2);
    scratchpad.set(&BufferRef::new(1), vec![5u32, 6]);
    assert_eq!(scratchpad.take(&BufferRef::<u32>::new(1)), vec![5, 6]);
    assert!(scratchpad.get(&BufferRef::<u32>::new(1)).is_err());
    scratchpad.set_const(0, 42);
    assert!(scratchpad.get(&BufferRef::<i64>::new(0)).is_err());
    assert_eq!(BufferRef::<u8>::new(3).any(), 3);
}
