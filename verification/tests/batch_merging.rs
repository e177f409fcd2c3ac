use locustdb::engine::aggregator::Aggregator;
use locustdb::engine::batch_merging::{
    combine, merge, merge_aggregate, merge_deduplicate, merge_deduplicate_partitioned, merge_drop,
    merge_sort, partition, subpartition, BatchResult, MergeOp, Premerge,
};
use locustdb::engine::comparator::{CmpGreaterThan, CmpLessThan};
use locustdb::engine::types::{EncodingType, TypedVec};
use locustdb::engine::vec_data::Compound;
use locustdb::errors::QueryError;
use locustdb::mem_store::value::Val;

fn grouping<'a>(keys: Vec<TypedVec<'a>>, sums: Vec<i64>) -> BatchResult<'a> {
    BatchResult {
        group_by: Some(keys),
        sort_by: None,
        desc: false,
        select: vec![TypedVec::I64(sums)],
        aggregators: vec![Aggregator::Sum],
        level: 0,
        batch_count: 1,
    }
}

fn rows<'a>(select: Vec<TypedVec<'a>>, sort_by: Option<usize>, desc: bool) -> BatchResult<'a> {
    BatchResult {
        group_by: None,
        sort_by,
        desc,
        select,
        aggregators: vec![],
        level: 0,
        batch_count: 1,
    }
}

#[test]
fn test_multipass_grouping() {
    let left1 = vec!["A", "A", "A", "C", "P"];
    let right1 = vec!["A", "A", "B", "C", "X", "X", "Z"];
    let result = partition::<&str>(&left1, &right1, 10);
    assert_eq!(
        result,
        vec![
            Premerge { left: 3, right: 2 },
            Premerge { left: 0, right: 1 },
            Premerge { left: 1, right: 1 },
            Premerge { left: 1, right: 0 },
            Premerge { left: 0, right: 2 },
        ]
    );

    let left2 = vec![1u32, 3, 7, 2, 1];
    let right2 = vec![3u32, 5, 0, 2, 1, 2, 1];
    let (merging, merge_ops) = merge_deduplicate_partitioned::<u32>(&result, &left2, &right2);
    assert_eq!(&merging, &[1, 3, 5, 7, 0, 2, 1, 1, 2]);
    assert_eq!(
        &merge_ops,
        &[
            MergeOp::TakeLeft,
            MergeOp::TakeLeft,
            MergeOp::MergeRight,
            MergeOp::TakeRight,
            MergeOp::TakeLeft,
            MergeOp::TakeRight,
            MergeOp::TakeLeft,
            MergeOp::MergeRight,
            MergeOp::TakeLeft,
            MergeOp::TakeRight,
            MergeOp::TakeRight,
        ]
    );

    let subpartition = subpartition::<u32>(&result, &left2, &right2);
    assert_eq!(
        subpartition,
        vec![
            Premerge { left: 1, right: 0 },
            Premerge { left: 1, right: 1 },
            Premerge { left: 0, right: 1 },
            Premerge { left: 1, right: 0 },
            Premerge { left: 0, right: 1 },
            Premerge { left: 1, right: 1 },
            Premerge { left: 1, right: 0 },
            Premerge { left: 0, right: 1 },
            Premerge { left: 0, right: 1 },
        ]
    );
}

#[test]
fn merge_deduplicate_gives_sorted_union() {
    let left = vec![1i64, 3, 5, 9];
    let right = vec![0i64, 3, 4, 9, 10];
    let (keys, ops) = merge_deduplicate(&left, &right);
    assert_eq!(keys, vec![0, 1, 3, 4, 5, 9, 10]);
    assert_eq!(
        ops,
        vec![
            MergeOp::TakeRight,
            MergeOp::TakeLeft,
            MergeOp::TakeLeft,
            MergeOp::MergeRight,
            MergeOp::TakeRight,
            MergeOp::TakeLeft,
            MergeOp::TakeLeft,
            MergeOp::MergeRight,
            MergeOp::TakeRight,
        ]
    );
    assert_eq!(ops.len(), left.len() + right.len());
    let merges = ops.iter().filter(|op| **op == MergeOp::MergeRight).count();
    assert_eq!(merges, left.len() + right.len() - keys.len());
    assert_eq!(merge_drop(&left, &right, &ops), keys);
    for pair in keys.windows(2) {
        assert!(pair[0] < pair[1]);
    }
}

#[test]
fn merge_deduplicate_with_an_empty_side() {
    let none: Vec<&str> = vec![];
    let some = vec!["a", "b"];
    let (keys, ops) = merge_deduplicate(&some, &none);
    assert_eq!(keys, some);
    assert_eq!(ops, vec![MergeOp::TakeLeft, MergeOp::TakeLeft]);
    let (keys, ops) = merge_deduplicate(&none, &some);
    assert_eq!(keys, some);
    assert_eq!(ops, vec![MergeOp::TakeRight, MergeOp::TakeRight]);
    let (keys, ops) = merge_deduplicate(&none, &none);
    assert!(keys.is_empty());
    assert!(ops.is_empty());
}

#[test]
fn merge_deduplicate_folds_the_tail() {
    let (keys, ops) = merge_deduplicate(&[1u8, 7], &[7u8, 8]);
    assert_eq!(keys, vec![1, 7, 8]);
    assert_eq!(
        ops,
        vec![MergeOp::TakeLeft, MergeOp::TakeLeft, MergeOp::MergeRight, MergeOp::TakeRight]
    );
}

#[test]
fn merge_aggregate_folds_into_the_last_row() {
    let ops = vec![
        MergeOp::TakeLeft,
        MergeOp::MergeRight,
        MergeOp::TakeRight,
        MergeOp::TakeLeft,
        MergeOp::MergeRight,
    ];
    let left = vec![10i64, 30];
    let right = vec![1i64, 5, -7];
    let sums = merge_aggregate(&left, &right, &ops, Aggregator::Sum);
    assert_eq!(sums, vec![11, 5, 23]);
    assert_eq!(sums.iter().sum::<i64>(), left.iter().sum::<i64>() + right.iter().sum::<i64>());
    let counts = merge_aggregate(&left, &right, &ops, Aggregator::Count);
    assert_eq!(counts, vec![11, 5, 23]);
    assert_eq!(merge_aggregate(&left, &right, &ops, Aggregator::Min), vec![1, 5, -7]);
    assert_eq!(merge_aggregate(&left, &right, &ops, Aggregator::Max), vec![10, 5, 30]);
}

#[test]
fn aggregators_combine() {
    assert_eq!(Aggregator::Sum.combine_i64(2, 3), 5);
    assert_eq!(Aggregator::Count.combine_i64(2, 3), 5);
    assert_eq!(Aggregator::Min.combine_i64(2, 3), 2);
    assert_eq!(Aggregator::Max.combine_i64(2, 3), 3);
    assert_eq!(Aggregator::Sum.combine_i64(i64::MAX, 1), i64::MIN);
    assert_eq!(Aggregator::Sum.combine_i64(i64::MIN, -1), i64::MAX);
}

#[test]
fn merge_sort_keeps_order_limit_and_left_first() {
    let left = vec![1i64, 3, 3, 8];
    let right = vec![2i64, 3, 9];
    let (sorted, ops) = merge_sort::<i64, CmpLessThan>(&left, &right, 100);
    assert_eq!(sorted, vec![1, 2, 3, 3, 3, 8, 9]);
    assert_eq!(ops, vec![true, false, true, true, false, true, false]);
    assert_eq!(merge(&left, &right, &ops), sorted);

    let (sorted, ops) = merge_sort::<i64, CmpLessThan>(&left, &right, 4);
    assert_eq!(sorted, vec![1, 2, 3, 3]);
    assert_eq!(ops, vec![true, false, true, true]);

    let (sorted, ops) = merge_sort::<i64, CmpLessThan>(&left, &right, 0);
    assert!(sorted.is_empty());
    assert!(ops.is_empty());

    let (sorted, ops) = merge_sort::<i64, CmpGreaterThan>(&[9, 4, 4], &[7, 4, 1], 5);
    assert_eq!(sorted, vec![9, 7, 4, 4, 4]);
    assert_eq!(ops, vec![true, false, true, true, false]);

    let (sorted, ops) = merge_sort::<&str, CmpLessThan>(&["b"], &[], 1);
    assert_eq!(sorted, vec!["b"]);
    assert_eq!(ops, vec![true]);
}

#[test]
fn merge_replays_choices_on_other_columns() {
    let merged = merge(&["l0", "l1"], &["r0", "r1", "r2"], &[false, true, false, false, true]);
    assert_eq!(merged, vec!["r0", "l0", "r1", "r2", "l1"]);
}

#[test]
fn partition_stops_at_the_limit() {
    let left = vec![1i64, 1, 2, 5];
    let right = vec![1i64, 3, 5, 5];
    assert_eq!(
        partition(&left, &right, usize::MAX),
        vec![
            Premerge { left: 2, right: 1 },
            Premerge { left: 1, right: 0 },
            Premerge { left: 0, right: 1 },
            Premerge { left: 1, right: 2 },
        ]
    );
    assert_eq!(
        partition(&left, &right, 4),
        vec![Premerge { left: 2, right: 1 }, Premerge { left: 1, right: 0 }]
    );
    assert!(partition(&left, &right, 0).is_empty());
}

#[test]
fn several_keys_merge_like_one_compound_key() {
    let left_a = vec!["a", "a", "b", "c"];
    let left_b = vec![1i64, 2, 1, 7];
    let right_a = vec!["a", "b", "b", "d"];
    let right_b = vec![2i64, 1, 3, 0];
    let groups = partition(&left_a, &right_a, usize::MAX);
    let (_, ops) = merge_deduplicate_partitioned(&groups, &left_b, &right_b);

    let left: Vec<Compound<&str, i64>> =
        left_a.iter().zip(&left_b).map(|(a, b)| Compound(*a, *b)).collect();
    let right: Vec<Compound<&str, i64>> =
        right_a.iter().zip(&right_b).map(|(a, b)| Compound(*a, *b)).collect();
    let (_, compound_ops) = merge_deduplicate(&left, &right);
    assert_eq!(ops, compound_ops);
    assert_eq!(
        ops,
        vec![
            MergeOp::TakeLeft,
            MergeOp::TakeLeft,
            MergeOp::MergeRight,
            MergeOp::TakeLeft,
            MergeOp::MergeRight,
            MergeOp::TakeRight,
            MergeOp::TakeLeft,
            MergeOp::TakeRight,
        ]
    );
    assert_eq!(subpartition(&groups, &left_b, &right_b), partition(&left, &right, usize::MAX));
}

#[test]
fn combine_sums_groups_of_one_key() {
    let left = grouping(vec![TypedVec::Str(vec!["a", "b"])], vec![1, 2]);
    let right = grouping(vec![TypedVec::Str(vec!["a", "b"])], vec![3, 4]);
    let combined = combine(left, right, 100).unwrap();
    assert_eq!(combined.group_by, Some(vec![TypedVec::Str(vec!["a", "b"])]));
    assert_eq!(combined.select, vec![TypedVec::I64(vec![4, 6])]);
    assert_eq!(combined.aggregators, vec![Aggregator::Sum]);
    assert_eq!(combined.sort_by, None);
    assert_eq!(combined.level, 1);
    assert_eq!(combined.batch_count, 2);
    assert_eq!(combined.len(), 2);
}

#[test]
fn combine_sums_groups_of_two_keys() {
    let left = grouping(
        vec![TypedVec::Str(vec!["a", "a"]), TypedVec::I64(vec![1, 2])],
        vec![10, 20],
    );
    let right = grouping(
        vec![TypedVec::Str(vec!["a", "b"]), TypedVec::I64(vec![1, 1])],
        vec![30, 40],
    );
    let combined = combine(left, right, 100).unwrap();
    assert_eq!(
        combined.group_by,
        Some(vec![TypedVec::Str(vec!["a", "a", "b"]), TypedVec::I64(vec![1, 2, 1])])
    );
    assert_eq!(combined.select, vec![TypedVec::I64(vec![40, 20, 40])]);
}

#[test]
fn combine_sums_groups_of_three_keys() {
    let left = grouping(
        vec![
            TypedVec::I64(vec![1, 1, 1, 2]),
            TypedVec::Str(vec!["x", "x", "y", "x"]),
            TypedVec::I64(vec![1, 2, 1, 1]),
        ],
        vec![1, 2, 3, 4],
    );
    let right = grouping(
        vec![
            TypedVec::I64(vec![1, 1, 2, 3]),
            TypedVec::Str(vec!["x", "y", "x", "z"]),
            TypedVec::I64(vec![2, 1, 2, 9]),
        ],
        vec![10, 20, 30, 40],
    );
    let combined = combine(left, right, 100).unwrap();
    assert_eq!(
        combined.group_by,
        Some(vec![
            TypedVec::I64(vec![1, 1, 1, 2, 2, 3]),
            TypedVec::Str(vec!["x", "x", "y", "x", "x", "z"]),
            TypedVec::I64(vec![1, 2, 1, 1, 2, 9]),
        ])
    );
    assert_eq!(combined.select, vec![TypedVec::I64(vec![1, 12, 23, 4, 30, 40])]);
}

#[test]
fn combine_merges_sorted_rows_up_to_the_limit() {
    let left = rows(
        vec![TypedVec::I64(vec![4, 3, 1]), TypedVec::Str(vec!["four", "three", "one"])],
        Some(0),
        true,
    );
    let right = rows(
        vec![TypedVec::I64(vec![9, 6, 5]), TypedVec::Str(vec!["nine", "six", "five"])],
        Some(0),
        true,
    );
    let combined = combine(left, right, 3).unwrap();
    assert_eq!(
        combined.select,
        vec![TypedVec::I64(vec![9, 6, 5]), TypedVec::Str(vec!["nine", "six", "five"])]
    );
    assert_eq!(combined.sort_by, Some(0));
    assert!(combined.desc);
    assert!(combined.group_by.is_none());
    assert!(combined.aggregators.is_empty());
}

#[test]
fn combine_puts_unsorted_rows_one_after_the_other() {
    let left = rows(vec![TypedVec::I64(vec![1, 2]), TypedVec::Null(2)], None, false);
    let right = rows(vec![TypedVec::I64(vec![3, 4]), TypedVec::Null(2)], None, false);
    let combined = combine(left, right, 3).unwrap();
    assert_eq!(combined.select, vec![TypedVec::I64(vec![1, 2, 3]), TypedVec::Null(3)]);

    let left = rows(vec![TypedVec::I64(vec![1, 2, 3])], None, false);
    let right = rows(vec![TypedVec::I64(vec![4])], None, false);
    let combined = combine(left, right, 2).unwrap();
    assert_eq!(combined.select, vec![TypedVec::I64(vec![1, 2])]);

    let left = rows(vec![TypedVec::I64(vec![1])], None, false);
    let right = rows(vec![TypedVec::Str(vec!["a"])], None, false);
    let combined = combine(left, right, 10).unwrap();
    assert_eq!(combined.select, vec![TypedVec::Val(vec![Val::Integer(1), Val::Str("a")])]);
}

#[test]
fn combine_rejects_results_of_different_shapes() {
    let grouped = grouping(vec![TypedVec::Str(vec!["a"])], vec![1]);
    let plain = rows(vec![TypedVec::I64(vec![1])], None, false);
    assert!(matches!(combine(grouped, plain, 10), Err(QueryError::FatalError(_))));

    let sorted = rows(vec![TypedVec::I64(vec![1])], Some(0), false);
    let plain = rows(vec![TypedVec::I64(vec![1])], None, false);
    assert!(matches!(combine(sorted, plain, 10), Err(QueryError::FatalError(_))));

    let left = grouping(vec![TypedVec::Str(vec!["a", "b"])], vec![1]);
    let right = grouping(vec![TypedVec::Str(vec!["a"])], vec![1]);
    assert!(matches!(combine(left, right, 10), Err(QueryError::FatalError(_))));
}

#[test]
fn combine_reports_unsupported_types() {
    let left = grouping(vec![TypedVec::U32(vec![1])], vec![1]);
    let right = grouping(vec![TypedVec::U32(vec![1])], vec![1]);
    assert!(matches!(combine(left, right, 10), Err(QueryError::NotImplemented(_))));

    let left = rows(vec![TypedVec::U8(vec![1])], Some(0), false);
    let right = rows(vec![TypedVec::U8(vec![1])], Some(0), false);
    assert!(matches!(combine(left, right, 10), Err(QueryError::NotImplemented(_))));

    let mut left = grouping(vec![TypedVec::I64(vec![1])], vec![1]);
    left.select = vec![TypedVec::Str(vec!["a"])];
    let right = grouping(vec![TypedVec::I64(vec![1])], vec![1]);
    assert!(matches!(combine(left, right, 10), Err(QueryError::TypeError(_))));
}

#[test]
fn validate_compares_column_lengths() {
    let good = grouping(vec![TypedVec::Str(vec!["a", "b"])], vec![1, 2]);
    assert!(good.validate().is_ok());
    assert_eq!(good.len(), 2);
    let bad = grouping(vec![TypedVec::Str(vec!["a", "b"])], vec![1]);
    match bad.validate() {
        Err(QueryError::FatalError(info)) => {
            assert_eq!(info, ":group_by[0].len = 2:select[0].len = 1");
        }
        _ => panic!("expected a fatal error"),
    }
    let empty = rows(vec![], None, false);
    assert!(empty.validate().is_ok());
    assert_eq!(empty.len(), 0);
}

#[test]
fn typed_vec_knows_its_type_and_length() {
    assert_eq!(TypedVec::empty(3).len(), 3);
    assert_eq!(TypedVec::empty(3).get_type(), EncodingType::Null);
    assert_eq!(TypedVec::Str(vec!["a"]).get_type(), EncodingType::Str);
    assert_eq!(TypedVec::U8(vec![1, 2]).len(), 2);
    assert_eq!(
        TypedVec::U8(vec![1, 2]).to_vals(1),
        vec![Val::Integer(1)]
    );
    assert_eq!(
        TypedVec::Null(1).extend(TypedVec::U32(vec![5, 6]), 2),
        TypedVec::Val(vec![Val::Null, Val::Integer(5)])
    );
}

#[test]
fn merge_deduplicate_of_columns_that_repeat_keys() {
    let left = vec![1i64, 1, 2];
    let right = vec![1i64, 1, 3];
    let (keys, ops) = merge_deduplicate(&left, &right);
    assert_eq!(keys, vec![1, 1, 2, 3]);
    assert_eq!(
        ops,
        vec![
            MergeOp::TakeLeft,
            MergeOp::MergeRight,
            MergeOp::MergeRight,
            MergeOp::TakeLeft,
            MergeOp::TakeLeft,
            MergeOp::TakeRight,
        ]
    );
    let folded = ops.iter().filter(|op| **op == MergeOp::MergeRight).count();
    assert_eq!(ops.len(), left.len() + right.len());
    assert_eq!(folded, left.len() + right.len() - keys.len());
    assert!(keys.windows(2).all(|pair| pair[0] <= pair[1]));
    let (mut i, mut j) = (0, 0);
    let mut consumed = vec![];
    for op in &ops {
        if *op == MergeOp::TakeLeft {
            consumed.push(left[i]);
            i += 1;
        } else {
            consumed.push(right[j]);
            j += 1;
        }
    }
    assert_eq!(consumed, vec![1, 1, 1, 1, 2, 3]);
    assert_eq!(merge_drop(&left, &right, &ops), keys);
}

#[test]
fn errors_describe_what_went_wrong() {
    let left = grouping(vec![TypedVec::U32(vec![1])], vec![1]);
    let right = grouping(vec![TypedVec::U32(vec![1])], vec![1]);
    match combine(left, right, 10) {
        Err(error) => assert_eq!(error.message(), "merge_deduplicate types U32, U32"),
        Ok(_) => panic!("expected a failure"),
    }
    let grouped = grouping(vec![TypedVec::Str(vec!["a"])], vec![1]);
    let plain = rows(vec![TypedVec::I64(vec![1])], None, false);
    match combine(grouped, plain, 10) {
        Err(error) => assert_eq!(error.message(), "Trying to merge incompatible batch results"),
        Ok(_) => panic!("expected a failure"),
    }
}

#[test]
fn validate_lists_the_lengths_of_the_columns() {
    let bad = grouping(vec![TypedVec::Str(vec!["a", "b"])], vec![1]);
    match bad.validate() {
        Err(error) => assert_eq!(error.message(), ":group_by[0].len = 2:select[0].len = 1"),
        Ok(()) => panic!("expected a failure"),
    }
}

#[test]
fn folds_count_the_keys_that_both_columns_have() {
    let left = vec![1i64, 3, 5];
    let right = vec![1i64, 2, 5, 7];
    let (keys, ops) = merge_deduplicate(&left, &right);
    assert_eq!(keys, vec![1, 2, 3, 5, 7]);
    let folded = ops.iter().filter(|op| **op == MergeOp::MergeRight).count();
    let shared = right.iter().filter(|r| left.contains(r)).count();
    assert_eq!(folded, shared);
    assert_eq!(folded, 2);
    let (mut j, mut emitted) = (0, 0);
    for op in &ops {
        match op {
            MergeOp::TakeLeft => emitted += 1,
            MergeOp::TakeRight => {
                j += 1;
                emitted += 1;
            }
            MergeOp::MergeRight => {
                assert!(emitted > 0);
                assert_eq!(right[j], keys[emitted - 1]);
                j += 1;
            }
        }
    }
    assert_eq!((j, emitted), (right.len(), keys.len()));
}
