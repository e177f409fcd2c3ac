//! Columns of one ingestion batch.

use vstd::prelude::*;

use crate::ingest::raw_val::{RawVal, Value};

verus! {

/// One column of a batch of rows. Floats are held as their 64-bit patterns.
///
/// The nullable variants hold the number of rows and the non-null values
/// with their row indices; the rows in between are null.
#[derive(Debug)]
pub enum InputColumn {
    Int(Vec<i64>),
    Float(Vec<u64>),
    Str(Vec<String>),
    Null(usize),
    Mixed(Vec<RawVal>),
    NullableFloat(u64, Vec<(u64, u64)>),
    NullableInt(u64, Vec<(u64, i64)>),
}

/// `count` nulls.
pub open spec fn nulls(count: nat) -> Seq<Value> {
    Seq::new(count, |i: int| Value::Null)
}

/// The row indices ascend strictly and stay below `rows`.
pub open spec fn indices_ascend<V>(rows: u64, data: Seq<(u64, V)>) -> bool {
    &&& forall|a: int, b: int| 0 <= a < b < data.len()
        ==> (#[trigger] data[a]).0 < (#[trigger] data[b]).0
    &&& forall|a: int| 0 <= a < data.len() ==> (#[trigger] data[a]).0 < rows
}

/// The value that `data` lists for the row `row`, if it lists one.
pub open spec fn lookup<V>(data: Seq<(u64, V)>, row: int) -> Option<V>
    decreases data.len(),
{
    if data.len() == 0 {
        None
    } else if data.last().0 == row {
        Some(data.last().1)
    } else {
        lookup(data.drop_last(), row)
    }
}

/// The rows of a nullable column: for every row the value that `data` lists
/// for it, as `value` presents it, and null where `data` lists none.
pub open spec fn sparse_rows<V>(
    rows: u64,
    data: Seq<(u64, V)>,
    value: spec_fn(V) -> Value,
) -> Seq<Value> {
    Seq::new(
        rows as nat,
        |row: int|
            match lookup(data, row) {
                Some(v) => value(v),
                None => Value::Null,
            },
    )
}

/// Entries with ascending row indices list nothing for a row above their last index.
pub proof fn lemma_lookup_above<V>(rows: u64, data: Seq<(u64, V)>, row: int)
    requires
        indices_ascend(rows, data),
        data.len() > 0 ==> data.last().0 < row,
    ensures
        lookup(data, row) is None,
    decreases data.len(),
{
    if data.len() > 0 {
        let front = data.drop_last();
        assert forall|a: int, b: int| 0 <= a < b < front.len() implies (#[trigger] front[a]).0 < (
        #[trigger] front[b]).0 by {
            assert(data[a].0 < data[b].0);
        }
        assert forall|a: int| 0 <= a < front.len() implies (#[trigger] front[a]).0 < rows by {
            assert(data[a].0 < rows);
        }
        if front.len() > 0 {
            assert(data[front.len() - 1].0 < data[data.len() - 1].0);
        }
        lemma_lookup_above(rows, front, row);
    }
}

impl InputColumn {
    /// The nullable variants list their values by strictly ascending row
    /// index below the row count, and every row count fits in memory.
    pub open spec fn wf(&self) -> bool {
        match *self {
            InputColumn::NullableFloat(rows, data) => indices_ascend(rows, data@) && rows
                <= usize::MAX,
            InputColumn::NullableInt(rows, data) => indices_ascend(rows, data@) && rows
                <= usize::MAX,
            _ => true,
        }
    }

    /// The values of the column, row by row.
    pub open spec fn rows(&self) -> Seq<Value> {
        match *self {
            InputColumn::Int(ints) => ints@.map_values(|i: i64| Value::Int(i)),
            InputColumn::Float(floats) => floats@.map_values(|f: u64| Value::Float(f)),
            InputColumn::Str(strings) => strings@.map_values(|s: String| Value::Str(s@)),
            InputColumn::Null(count) => nulls(count as nat),
            InputColumn::Mixed(values) => values@.map_values(|v: RawVal| v@),
            InputColumn::NullableFloat(rows, data) => sparse_rows(
                rows,
                data@,
                |f: u64| Value::Float(f),
            ),
            InputColumn::NullableInt(rows, data) => sparse_rows(
                rows,
                data@,
                |i: i64| Value::Int(i),
            ),
        }
    }

    /// Whether the column is well formed.
    pub fn is_valid(&self) -> (valid: bool)
        ensures
            valid == self.wf(),
    {
        match self {
            InputColumn::NullableFloat(rows, data) => *rows <= usize::MAX as u64
                && indices_valid(*rows, data),
            InputColumn::NullableInt(rows, data) => *rows <= usize::MAX as u64 && indices_valid(
                *rows,
                data,
            ),
            _ => true,
        }
    }
}

/// Whether the row indices ascend strictly and stay below `rows`.
pub fn indices_valid<V>(rows: u64, data: &Vec<(u64, V)>) -> (valid: bool)
    ensures
        valid == indices_ascend(rows, data@),
{
    let mut k: usize = 0;
    while k < data.len()
        invariant
            k <= data@.len(),
            indices_ascend(rows, data@.take(k as int)),
        decreases data@.len() - k,
    {
        let index = data[k].0;
        if index >= rows || (k > 0 && data[k - 1].0 >= index) {
            proof {
                if index < rows {
                    assert(!(data@[k - 1].0 < data@[k as int].0));
                }
            }
            return false;
        }
        proof {
            let shorter = data@.take(k as int);
            let longer = data@.take(k + 1);
            assert forall|a: int, b: int| 0 <= a < b < longer.len() implies (#[trigger] longer[a]).0
                < (#[trigger] longer[b]).0 by {
                if b == k && a < k - 1 {
                    assert(shorter[a].0 < shorter[k - 1].0);
                }
                if b < k {
                    assert(shorter[a].0 < shorter[b].0);
                }
            }
            assert forall|a: int| 0 <= a < longer.len() implies (#[trigger] longer[a]).0 < rows by {
                if a < k {
                    assert(shorter[a].0 < rows);
                }
            }
        }
        k += 1;
    }
    assert(data@.take(k as int) =~= data@);
    true
}

} // verus!
