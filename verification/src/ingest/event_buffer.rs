//! Batches of events as clients send them.

use vstd::prelude::*;

use crate::ingest::input_column::{
    indices_ascend, lemma_lookup_above, lookup, nulls, sparse_rows, InputColumn,
};
use crate::ingest::raw_val::Value;
use crate::mem_store::raw_col::lemma_lookup_listed;

verus! {

/// The values of one column of a batch. Floats are held as their 64-bit
/// patterns. The sparse variants list the values with their row indices.
#[derive(Debug)]
pub enum ColumnData {
    Dense(Vec<u64>),
    Sparse(Vec<(u64, u64)>),
    I64(Vec<i64>),
    String(Vec<String>),
    Empty,
    SparseI64(Vec<(u64, i64)>),
}

/// The rows of one table in a batch: their number and their columns by name.
#[derive(Debug)]
pub struct TableBuffer {
    pub len: u64,
    pub columns: Vec<(String, ColumnData)>,
}

/// A batch of events: rows for one or more tables, by the tables' names.
#[derive(Debug)]
pub struct EventBuffer {
    pub tables: Vec<(String, TableBuffer)>,
}

/// A column of a batch as a specification sees it: its name and its rows.
pub open spec fn column_entries(rows: u64, columns: Seq<(String, ColumnData)>) -> Seq<
    (Seq<char>, Seq<Value>),
> {
    columns.map_values(|c: (String, ColumnData)| (c.0@, c.1.rows(rows)))
}

impl TableBuffer {
    /// The rows can be counted in memory and every column fits their number.
    pub open spec fn wf(&self) -> bool {
        &&& self.len <= usize::MAX
        &&& forall|i: int|
            0 <= i < self.columns@.len() ==> (#[trigger] self.columns@[i]).1.wf(self.len)
    }

    /// Whether the batch is well formed.
    pub fn is_valid(&self) -> (valid: bool)
        ensures
            valid == self.wf(),
    {
        if self.len > usize::MAX as u64 {
            return false;
        }
        let mut i: usize = 0;
        while i < self.columns.len()
            invariant
                i <= self.columns@.len(),
                forall|k: int| 0 <= k < i ==> (#[trigger] self.columns@[k]).1.wf(self.len),
            decreases self.columns@.len() - i,
        {
            if !self.columns[i].1.is_valid(self.len) {
                return false;
            }
            i += 1;
        }
        true
    }

    /// The columns as ingestion takes them.
    pub fn into_columns(self) -> (columns: Vec<(String, InputColumn)>)
        requires
            self.wf(),
        ensures
            columns@.len() == self.columns@.len(),
            forall|i: int| 0 <= i < columns@.len() ==> (#[trigger] columns@[i]).1.wf(),
            crate::ingest::buffer::typed_entries(columns@) == column_entries(
                self.len,
                self.columns@,
            ),
    {
        let rows = self.len;
        let mut input = self.columns;
        let ghost all = input@;
        let mut columns: Vec<(String, InputColumn)> = Vec::with_capacity(input.len());
        let mut i: usize = 0;
        while i < input.len()
            invariant
                i <= all.len(),
                input@.len() == all.len(),
                rows <= usize::MAX,
                forall|k: int| 0 <= k < all.len() ==> (#[trigger] all[k]).1.wf(rows),
                forall|k: int| i <= k < all.len() ==> #[trigger] input@[k] == all[k],
                columns@.len() == i,
                forall|k: int|
                    0 <= k < i ==> (#[trigger] columns@[k]).1.wf() && columns@[k].0@ == all[k].0@
                        && columns@[k].1.rows() == all[k].1.rows(rows),
            decreases all.len() - i,
        {
            let mut column = (String::new(), ColumnData::Empty);
            let ghost rest = input@;
            core::mem::swap(&mut column, &mut input[i]);
            proof {
                assert forall|k: int| i + 1 <= k < all.len() implies #[trigger] input@[k]
                    == all[k] by {
                    assert(rest[k] == all[k]);
                }
                assert(rest[i as int] == all[i as int]);
            }
            let (name, data) = column;
            columns.push((name, data.convert(rows)));
            i += 1;
        }
        assert(crate::ingest::buffer::typed_entries(columns@) =~= column_entries(rows, all));
        columns
    }
}

/// `values` with their positions as row indices.
pub open spec fn enumerated<V>(values: Seq<V>) -> Seq<(u64, V)> {
    Seq::new(values.len(), |i: int| (i as u64, values[i]))
}

/// `values`, filled up with nulls to `rows` values if there are fewer.
pub open spec fn filled(values: Seq<Value>, rows: u64) -> Seq<Value> {
    if values.len() < rows {
        values + nulls((rows - values.len()) as nat)
    } else {
        values
    }
}

/// Values with their positions as row indices list every value for its
/// position and nothing for a row behind the last.
pub proof fn lemma_enumerated<V>(rows: u64, values: Seq<V>, row: int)
    requires
        values.len() <= rows,
        0 <= row,
    ensures
        indices_ascend(rows, enumerated(values)),
        lookup(enumerated(values), row) == if row < values.len() {
            Some(values[row])
        } else {
            None::<V>
        },
{
    let data = enumerated(values);
    assert(indices_ascend(rows, data));
    if row < values.len() {
        lemma_lookup_listed(rows, data, row);
    } else {
        lemma_lookup_above(rows, data, row);
    }
}

/// Pairs every value with its position.
fn enumerate<V: Copy>(values: Vec<V>) -> (data: Vec<(u64, V)>)
    requires
        values@.len() <= u64::MAX,
    ensures
        data@ == enumerated(values@),
{
    let mut data: Vec<(u64, V)> = Vec::with_capacity(values.len());
    let mut i: usize = 0;
    while i < values.len()
        invariant
            i <= values@.len() <= u64::MAX,
            data@ == enumerated(values@.take(i as int)),
        decreases values@.len() - i,
    {
        data.push((i as u64, values[i]));
        assert(data@ =~= enumerated(values@.take(i + 1)));
        i += 1;
    }
    assert(values@.take(i as int) =~= values@);
    data
}

impl ColumnData {
    /// The column fits a batch of `rows` rows: a sparse column lists its
    /// values by strictly ascending row index below `rows`, and a string
    /// column has one string per row.
    pub open spec fn wf(&self, rows: u64) -> bool {
        match *self {
            ColumnData::Sparse(data) => indices_ascend(rows, data@),
            ColumnData::SparseI64(data) => indices_ascend(rows, data@),
            ColumnData::String(data) => data@.len() == rows,
            _ => true,
        }
    }

    /// The rows of the column in a batch of `rows` rows. A dense column
    /// with fewer values than rows holds the first rows, and the others are
    /// null; the gaps of a sparse column are null.
    pub open spec fn rows(&self, rows: u64) -> Seq<Value> {
        match *self {
            ColumnData::Dense(data) => filled(data@.map_values(|f: u64| Value::Float(f)), rows),
            ColumnData::Sparse(data) => sparse_rows(rows, data@, |f: u64| Value::Float(f)),
            ColumnData::I64(data) => filled(data@.map_values(|i: i64| Value::Int(i)), rows),
            ColumnData::String(data) => data@.map_values(|s: String| Value::Str(s@)),
            ColumnData::Empty => nulls(rows as nat),
            ColumnData::SparseI64(data) => sparse_rows(rows, data@, |i: i64| Value::Int(i)),
        }
    }

    /// Whether the column fits a batch of `rows` rows.
    pub fn is_valid(&self, rows: u64) -> (valid: bool)
        ensures
            valid == self.wf(rows),
    {
        match self {
            ColumnData::Sparse(data) => crate::ingest::input_column::indices_valid(rows, data),
            ColumnData::SparseI64(data) => crate::ingest::input_column::indices_valid(rows, data),
            ColumnData::String(data) => data.len() as u64 == rows,
            _ => true,
        }
    }
}

impl ColumnData {
    /// The column as ingestion takes it in a batch of `rows` rows.
    pub fn convert(self, rows: u64) -> (column: InputColumn)
        requires
            self.wf(rows),
            rows <= usize::MAX,
        ensures
            column.wf(),
            column.rows() == self.rows(rows),
    {
        match self {
            ColumnData::Dense(data) => {
                if (data.len() as u64) < rows {
                    let ghost values = data@;
                    let indexed = enumerate(data);
                    proof {
                        lemma_enumerated(rows, values, 0);
                        let sparse = sparse_rows(rows, indexed@, |f: u64| Value::Float(f));
                        let dense = filled(values.map_values(|f: u64| Value::Float(f)), rows);
                        assert forall|row: int| 0 <= row < rows implies #[trigger] sparse[row]
                            == dense[row] by {
                            lemma_enumerated(rows, values, row);
                        }
                        assert(sparse_rows(rows, indexed@, |f: u64| Value::Float(f)) =~= filled(
                            values.map_values(|f: u64| Value::Float(f)),
                            rows,
                        ));
                    }
                    InputColumn::NullableFloat(rows, indexed)
                } else {
                    InputColumn::Float(data)
                }
            },
            ColumnData::Sparse(data) => InputColumn::NullableFloat(rows, data),
            ColumnData::I64(data) => {
                if (data.len() as u64) < rows {
                    let ghost values = data@;
                    let indexed = enumerate(data);
                    proof {
                        lemma_enumerated(rows, values, 0);
                        let sparse = sparse_rows(rows, indexed@, |i: i64| Value::Int(i));
                        let dense = filled(values.map_values(|i: i64| Value::Int(i)), rows);
                        assert forall|row: int| 0 <= row < rows implies #[trigger] sparse[row]
                            == dense[row] by {
                            lemma_enumerated(rows, values, row);
                        }
                        assert(sparse_rows(rows, indexed@, |i: i64| Value::Int(i)) =~= filled(
                            values.map_values(|i: i64| Value::Int(i)),
                            rows,
                        ));
                    }
                    InputColumn::NullableInt(rows, indexed)
                } else {
                    InputColumn::Int(data)
                }
            },
            ColumnData::String(data) => InputColumn::Str(data),
            ColumnData::Empty => InputColumn::Null(rows as usize),
            ColumnData::SparseI64(data) => InputColumn::NullableInt(rows, data),
        }
    }
}

} // verus!
