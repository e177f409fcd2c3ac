use locustdb::ingest::buffer::Buffer;
use locustdb::ingest::event_buffer::{ColumnData, TableBuffer};
use locustdb::ingest::input_column::{indices_valid, InputColumn};
use locustdb::ingest::raw_val::RawVal;
use locustdb::mem_store::column::Encoding;
use locustdb::mem_store::raw_col::MixedCol;

fn column(buffer: &Buffer, name: &str) -> Vec<RawVal> {
    let at = buffer.find(&name.to_string()).unwrap();
    buffer.buffer[at].1.clone().into_values()
}

fn assert_aligned(buffer: &Buffer) {
    let longest = buffer.buffer.iter().map(|c| c.1.len()).max().unwrap_or(buffer.length);
    assert_eq!(buffer.len(), longest);
    for (_, col) in &buffer.buffer {
        assert_eq!(col.len(), buffer.len());
    }
}

fn text(s: &str) -> RawVal {
    RawVal::Str(s.to_string())
}

#[test]
fn push_row_fills_missing_columns_with_nulls() {
    let mut buffer = Buffer::new();
    buffer.push_row(vec![("k".to_string(), text("a")), ("v".to_string(), RawVal::Int(1))]);
    assert_aligned(&buffer);
    buffer.push_row(vec![("v".to_string(), RawVal::Int(2)), ("w".to_string(), RawVal::Float(7))]);
    assert_aligned(&buffer);
    buffer.push_row(vec![]);
    assert_aligned(&buffer);
    assert_eq!(buffer.len(), 3);
    assert_eq!(column(&buffer, "k"), vec![text("a"), RawVal::Null, RawVal::Null]);
    assert_eq!(column(&buffer, "v"), vec![RawVal::Int(1), RawVal::Int(2), RawVal::Null]);
    assert_eq!(column(&buffer, "w"), vec![RawVal::Null, RawVal::Float(7), RawVal::Null]);
    assert_eq!(buffer.heap_size_of_children(), 9 * 32);
}

#[test]
fn push_untyped_cols_extends_to_the_longest_column() {
    let mut buffer = Buffer::default();
    buffer.push_untyped_cols(vec![
        ("a".to_string(), vec![RawVal::Int(1), RawVal::Int(2)]),
        ("b".to_string(), vec![text("x")]),
    ]);
    assert_aligned(&buffer);
    assert_eq!(buffer.len(), 2);
    assert_eq!(column(&buffer, "b"), vec![text("x"), RawVal::Null]);
    buffer.push_untyped_cols(vec![("c".to_string(), vec![RawVal::Int(9)])]);
    assert_aligned(&buffer);
    assert_eq!(buffer.len(), 3);
    assert_eq!(column(&buffer, "a"), vec![RawVal::Int(1), RawVal::Int(2), RawVal::Null]);
    assert_eq!(column(&buffer, "c"), vec![RawVal::Null, RawVal::Null, RawVal::Int(9)]);
}

#[test]
fn push_typed_cols_takes_every_kind_of_column() {
    let mut buffer = Buffer::new();
    buffer.push_typed_cols(vec![
        ("i".to_string(), InputColumn::Int(vec![1, 2, 3, 4])),
        ("f".to_string(), InputColumn::Float(vec![10, 20])),
        ("s".to_string(), InputColumn::Str(vec!["a".to_string()])),
        ("n".to_string(), InputColumn::Null(2)),
        ("m".to_string(), InputColumn::Mixed(vec![RawVal::Int(5), text("t")])),
        ("nf".to_string(), InputColumn::NullableFloat(4, vec![(1, 11), (3, 33)])),
        ("ni".to_string(), InputColumn::NullableInt(3, vec![(0, -1)])),
    ]);
    assert_aligned(&buffer);
    assert_eq!(buffer.len(), 4);
    assert_eq!(
        column(&buffer, "f"),
        vec![RawVal::Float(10), RawVal::Float(20), RawVal::Null, RawVal::Null]
    );
    assert_eq!(
        column(&buffer, "nf"),
        vec![RawVal::Null, RawVal::Float(11), RawVal::Null, RawVal::Float(33)]
    );
    assert_eq!(
        column(&buffer, "ni"),
        vec![RawVal::Int(-1), RawVal::Null, RawVal::Null, RawVal::Null]
    );
    assert_eq!(column(&buffer, "n"), vec![RawVal::Null; 4]);
    assert_eq!(
        column(&buffer, "m"),
        vec![RawVal::Int(5), text("t"), RawVal::Null, RawVal::Null]
    );
}

#[test]
fn sparse_columns_need_ascending_indices() {
    assert!(InputColumn::NullableInt(3, vec![(0, 1), (2, 1)]).is_valid());
    assert!(!InputColumn::NullableInt(3, vec![(2, 1), (0, 1)]).is_valid());
    assert!(!InputColumn::NullableInt(3, vec![(1, 1), (1, 2)]).is_valid());
    assert!(!InputColumn::NullableFloat(3, vec![(3, 1)]).is_valid());
    assert!(InputColumn::NullableFloat(0, vec![]).is_valid());
    assert!(InputColumn::Int(vec![]).is_valid());
    assert!(indices_valid(5, &vec![(0u64, 'a'), (4, 'b')]));
    assert!(!indices_valid(4, &vec![(0u64, 'a'), (4, 'b')]));
}

#[test]
fn dense_column_shorter_than_the_batch_ends_in_nulls() {
    let batch = TableBuffer {
        len: 5,
        columns: vec![("v".to_string(), ColumnData::Dense(vec![100, 200, 300]))],
    };
    assert!(batch.is_valid());
    let mut buffer = Buffer::new();
    buffer.push_typed_cols(batch.into_columns());
    assert_eq!(buffer.len(), 5);
    assert_eq!(
        column(&buffer, "v"),
        vec![
            RawVal::Float(100),
            RawVal::Float(200),
            RawVal::Float(300),
            RawVal::Null,
            RawVal::Null,
        ]
    );
}

#[test]
fn event_columns_convert_to_input_columns() {
    assert!(matches!(ColumnData::Dense(vec![1, 2]).convert(2), InputColumn::Float(_)));
    match ColumnData::I64(vec![7, 8]).convert(3) {
        InputColumn::NullableInt(3, data) => assert_eq!(data, vec![(0, 7), (1, 8)]),
        _ => panic!("expected a nullable column"),
    }
    match ColumnData::Sparse(vec![(2, 9)]).convert(4) {
        InputColumn::NullableFloat(4, data) => assert_eq!(data, vec![(2, 9)]),
        _ => panic!("expected a nullable column"),
    }
    assert!(matches!(ColumnData::SparseI64(vec![]).convert(4), InputColumn::NullableInt(4, _)));
    assert!(matches!(ColumnData::Empty.convert(4), InputColumn::Null(4)));
    assert!(matches!(
        ColumnData::String(vec!["a".to_string()]).convert(1),
        InputColumn::Str(_)
    ));
    assert!(ColumnData::String(vec!["a".to_string()]).is_valid(1));
    assert!(!ColumnData::String(vec!["a".to_string()]).is_valid(2));
    assert!(!ColumnData::Sparse(vec![(4, 9)]).is_valid(4));
    assert!(ColumnData::Dense(vec![1, 2, 3]).is_valid(1));
}

#[test]
fn filter_keeps_the_requested_columns() {
    let mut buffer = Buffer::new();
    buffer.push_row(vec![
        ("a".to_string(), RawVal::Int(1)),
        ("b".to_string(), RawVal::Int(2)),
        ("c".to_string(), RawVal::Int(3)),
    ]);
    let filtered = buffer.filter(&["c".to_string(), "x".to_string(), "a".to_string(), "c".to_string()]);
    assert_eq!(filtered.len(), 1);
    assert_eq!(filtered.buffer.len(), 2);
    assert_eq!(column(&filtered, "a"), vec![RawVal::Int(1)]);
    assert_eq!(column(&filtered, "c"), vec![RawVal::Int(3)]);
    assert!(filtered.find(&"b".to_string()).is_none());

    let fallback = buffer.filter(&["x".to_string()]);
    assert_eq!(fallback.len(), 1);
    assert_eq!(fallback.buffer.len(), 1);
    assert_eq!(column(&fallback, "a"), vec![RawVal::Int(1)]);
}

#[test]
fn mixed_col_collects_values() {
    let mut col = MixedCol::with_nulls(1);
    col.push(RawVal::Int(3));
    col.push_ints(vec![4, 5]);
    col.push_floats(vec![6]);
    col.push_strings(vec!["s".to_string()]);
    col.push_nulls(2);
    col.push_all(vec![RawVal::Int(0)]);
    col.push_sparse_ints(2, vec![(1, 9)]);
    col.push_sparse_floats(2, vec![(0, 8)]);
    assert_eq!(col.len(), 13);
    assert_eq!(col.heap_size_of_children(), 13 * 32);
    assert_eq!(
        col.into_values(),
        vec![
            RawVal::Null,
            RawVal::Int(3),
            RawVal::Int(4),
            RawVal::Int(5),
            RawVal::Float(6),
            text("s"),
            RawVal::Null,
            RawVal::Null,
            RawVal::Int(0),
            RawVal::Null,
            RawVal::Int(9),
            RawVal::Float(8),
            RawVal::Null,
        ]
    );
    assert_eq!(MixedCol::default().len(), 0);
}

#[test]
fn finalize_picks_the_encoding_of_the_values() {
    let mut ints = MixedCol::new();
    ints.push_ints(vec![1, 2]);
    let column = ints.finalize("i");
    assert_eq!(column.name(), "i");
    assert_eq!(column.len(), 2);
    assert!(matches!(column.data(), Encoding::Int(v) if *v == vec![1, 2]));
    assert_eq!(column.heap_size_of_children(), 16);

    let mut floats = MixedCol::new();
    floats.push_floats(vec![3]);
    assert!(matches!(floats.finalize("f").data(), Encoding::Float(v) if *v == vec![3]));

    let column = MixedCol::with_nulls(4).finalize("n");
    assert!(matches!(column.data(), Encoding::Null(4)));
    assert_eq!(column.heap_size_of_children(), 0);

    let mut strings = MixedCol::new();
    strings.push_strings(vec!["ab".to_string(), "c".to_string()]);
    let column = strings.finalize("s");
    match column.data() {
        Encoding::String(packed) => assert_eq!(packed.iter(), vec!["ab", "c"]),
        _ => panic!("expected packed strings"),
    }
    assert_eq!(column.heap_size_of_children(), 2 * 8 + 3);

    let mut mixed = MixedCol::new();
    mixed.push_ints(vec![1]);
    mixed.push_nulls(1);
    let column = mixed.finalize("m");
    assert!(matches!(column.data(), Encoding::Mixed(v) if *v == vec![RawVal::Int(1), RawVal::Null]));
    assert_eq!(column.heap_size_of_children(), 64);
}

#[test]
fn a_row_that_names_a_column_twice_keeps_the_later_value() {
    let mut buffer = Buffer::default();
    buffer.push_row(vec![("a".to_string(), RawVal::Int(1)), ("a".to_string(), RawVal::Int(2))]);
    assert_aligned(&buffer);
    assert_eq!(buffer.len(), 1);
    assert_eq!(column(&buffer, "a"), vec![RawVal::Int(2)]);
    buffer.push_row(vec![
        ("b".to_string(), RawVal::Int(3)),
        ("a".to_string(), RawVal::Int(4)),
        ("b".to_string(), text("x")),
    ]);
    assert_aligned(&buffer);
    assert_eq!(buffer.len(), 2);
    assert_eq!(column(&buffer, "a"), vec![RawVal::Int(2), RawVal::Int(4)]);
    assert_eq!(column(&buffer, "b"), vec![RawVal::Null, text("x")]);
    let cells = locustdb::ingest::buffer::cells_of(vec![
        ("b".to_string(), RawVal::Int(3)),
        ("a".to_string(), RawVal::Int(4)),
        ("b".to_string(), RawVal::Int(5)),
    ]);
    assert_eq!(
        cells,
        vec![("b".to_string(), RawVal::Int(5)), ("a".to_string(), RawVal::Int(4))]
    );
}

#[test]
fn a_batch_without_columns_leaves_the_buffer_as_it_was() {
    let mut buffer = Buffer::new();
    buffer.push_row(vec![("a".to_string(), RawVal::Int(1))]);
    buffer.push_typed_cols(vec![]);
    assert_aligned(&buffer);
    assert_eq!(buffer.len(), 1);
    assert_eq!(column(&buffer, "a"), vec![RawVal::Int(1)]);
    buffer.push_untyped_cols(vec![]);
    assert_aligned(&buffer);
    assert_eq!(buffer.len(), 1);
    assert_eq!(column(&buffer, "a"), vec![RawVal::Int(1)]);
    buffer.push_untyped_cols(vec![("b".to_string(), vec![])]);
    assert_aligned(&buffer);
    assert_eq!(buffer.len(), 1);
    assert_eq!(column(&buffer, "b"), vec![RawVal::Null]);
}
