use locustdb::engine::comparator::CmpGreaterThan;
use locustdb::engine::operators::merge::merge;
use locustdb::mem_store::value::Val;

fn float(value: f64) -> Val<'static> {
    Val::Float(value.to_bits())
}

#[test]
fn test_merge() {
    let left = vec![
        Val::Null,
        Val::Null,
        Val::Null,
        Val::Null,
        Val::Null,
        float(0.4),
    ];
    let right = vec![Val::Null, Val::Null, float(1.123124e30), float(1e-32)];
    let (merged, merge_ops) = merge::<Val, CmpGreaterThan>(&left, &right, 10);
    assert_eq!(
        merged,
        vec![
            Val::Null,
            Val::Null,
            Val::Null,
            Val::Null,
            Val::Null,
            Val::Null,
            Val::Null,
            float(1.123124e30),
            float(0.4),
            float(1e-32),
        ]
    );
    assert_eq!(merge_ops, vec![1, 1, 1, 1, 1, 0, 0, 0, 1, 0]);
}
