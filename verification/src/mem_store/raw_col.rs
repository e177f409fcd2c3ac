//! Untyped columns that grow while rows are ingested.

use vstd::prelude::*;

use crate::ingest::input_column::{
    indices_ascend, lemma_lookup_above, lookup, nulls, sparse_rows, InputColumn,
};
use crate::ingest::raw_val::{RawVal, Value};

verus! {

/// Bytes of heap that one value of a `MixedCol` takes.
pub const VALUE_BYTES: usize = 32;

/// Append-only column that accepts values of any type.
#[derive(Debug)]
pub struct MixedCol {
    data: Vec<RawVal>,
}

impl View for MixedCol {
    type V = Seq<Value>;

    /// The values appended so far, nulls included.
    closed spec fn view(&self) -> Seq<Value> {
        self.data@.map_values(|v: RawVal| v@)
    }
}

/// `bytes` as far as a `usize` can hold it.
pub open spec fn saturated(bytes: nat) -> usize {
    if bytes > usize::MAX {
        usize::MAX
    } else {
        bytes as usize
    }
}

impl MixedCol {
    /// An empty column.
    pub fn new() -> (col: MixedCol)
        ensures
            col@ == Seq::<Value>::empty(),
    {
        let col = MixedCol { data: Vec::new() };
        assert(col@ =~= Seq::<Value>::empty());
        col
    }

    /// A column of `count` nulls.
    pub fn with_nulls(count: usize) -> (col: MixedCol)
        ensures
            col@ == nulls(count as nat),
    {
        let mut col = MixedCol::new();
        col.push_nulls(count);
        assert(col@ =~= nulls(count as nat));
        col
    }

    /// Appends one value.
    pub fn push(&mut self, elem: RawVal)
        ensures
            final(self)@ == old(self)@.push(elem@),
    {
        self.data.push(elem);
        assert(self@ =~= old(self)@.push(elem@));
    }

    /// Appends `count` nulls.
    pub fn push_nulls(&mut self, count: usize)
        ensures
            final(self)@ == old(self)@ + nulls(count as nat),
    {
        let mut k: usize = 0;
        while k < count
            invariant
                k <= count,
                self@ == old(self)@ + nulls(k as nat),
            decreases count - k,
        {
            self.push(RawVal::Null);
            assert(self@ =~= old(self)@ + nulls((k + 1) as nat));
            k += 1;
        }
    }

    /// Appends integers.
    pub fn push_ints(&mut self, ints: Vec<i64>)
        ensures
            final(self)@ == old(self)@ + ints@.map_values(|i: i64| Value::Int(i)),
    {
        let mut k: usize = 0;
        assert(self@ =~= old(self)@ + ints@.take(0).map_values(|i: i64| Value::Int(i)));
        while k < ints.len()
            invariant
                k <= ints@.len(),
                self@ == old(self)@ + ints@.take(k as int).map_values(|i: i64| Value::Int(i)),
            decreases ints@.len() - k,
        {
            self.push(RawVal::Int(ints[k]));
            assert(self@ =~= old(self)@ + ints@.take(k + 1).map_values(|i: i64| Value::Int(i)));
            k += 1;
        }
        assert(ints@.take(k as int) =~= ints@);
    }

    /// Appends floats, given by their bit patterns.
    pub fn push_floats(&mut self, floats: Vec<u64>)
        ensures
            final(self)@ == old(self)@ + floats@.map_values(|f: u64| Value::Float(f)),
    {
        let mut k: usize = 0;
        assert(self@ =~= old(self)@ + floats@.take(0).map_values(|f: u64| Value::Float(f)));
        while k < floats.len()
            invariant
                k <= floats@.len(),
                self@ == old(self)@ + floats@.take(k as int).map_values(|f: u64| Value::Float(f)),
            decreases floats@.len() - k,
        {
            self.push(RawVal::Float(floats[k]));
            assert(self@ =~= old(self)@ + floats@.take(k + 1).map_values(
                |f: u64| Value::Float(f),
            ));
            k += 1;
        }
        assert(floats@.take(k as int) =~= floats@);
    }

    /// Appends strings.
    pub fn push_strings(&mut self, strings: Vec<String>)
        ensures
            final(self)@ == old(self)@ + strings@.map_values(|s: String| Value::Str(s@)),
    {
        let mut strings = strings;
        let ghost all = strings@;
        let mut k: usize = 0;
        assert(self@ =~= old(self)@ + all.take(0).map_values(|s: String| Value::Str(s@)));
        while k < strings.len()
            invariant
                k <= all.len(),
                strings@.len() == all.len(),
                forall|i: int| k <= i < all.len() ==> strings@[i] == all[i],
                self@ == old(self)@ + all.take(k as int).map_values(|s: String| Value::Str(s@)),
            decreases all.len() - k,
        {
            let mut string = String::new();
            core::mem::swap(&mut string, &mut strings[k]);
            self.push(RawVal::Str(string));
            assert(self@ =~= old(self)@ + all.take(k + 1).map_values(|s: String| Value::Str(s@)));
            k += 1;
        }
        assert(all.take(k as int) =~= all);
    }

    /// Appends the values of `other`.
    pub fn push_all(&mut self, values: Vec<RawVal>)
        ensures
            final(self)@ == old(self)@ + values@.map_values(|v: RawVal| v@),
    {
        let mut values = values;
        let ghost appended = values@.map_values(|v: RawVal| v@);
        self.data.append(&mut values);
        assert(self@ =~= old(self)@ + appended);
    }

    /// Appends the rows of a nullable float column.
    pub fn push_sparse_floats(&mut self, rows: u64, data: Vec<(u64, u64)>)
        requires
            indices_ascend(rows, data@),
            rows <= usize::MAX,
        ensures
            final(self)@ == old(self)@ + sparse_rows(rows, data@, |f: u64| Value::Float(f)),
    {
        let ghost all = sparse_rows(rows, data@, |f: u64| Value::Float(f));
        let mut next_i: u64 = 0;
        let mut k: usize = 0;
        assert(self@ =~= old(self)@ + all.take(0));
        while k < data.len()
            invariant
                k <= data@.len(),
                indices_ascend(rows, data@),
                rows <= usize::MAX,
                all == sparse_rows(rows, data@, |f: u64| Value::Float(f)),
                next_i <= rows,
                k > 0 ==> next_i == data@[k - 1].0 + 1,
                k == 0 ==> next_i == 0,
                self@ == old(self)@ + all.take(next_i as int),
            decreases data@.len() - k,
        {
            let (i, f) = data[k];
            let ghost before = self@;
            proof {
                if k > 0 {
                    assert(data@[k - 1].0 < data@[k as int].0);
                }
                assert forall|row: int| next_i <= row <= i implies #[trigger] all[row] == if row
                    == i {
                    Value::Float(f)
                } else {
                    Value::Null
                } by {
                    if row == i {
                        lemma_lookup_listed(rows, data@, k as int);
                    } else {
                        lemma_lookup_gap(rows, data@, k as int, row);
                    }
                }
            }
            self.push_nulls((i - next_i) as usize);
            self.push(RawVal::Float(f));
            next_i = i + 1;
            assert(self@ =~= old(self)@ + all.take(next_i as int));
            k += 1;
        }
        proof {
            assert forall|row: int| next_i <= row < rows implies #[trigger] all[row]
                == Value::Null by {
                lemma_lookup_above(rows, data@, row);
            }
        }
        self.push_nulls((rows - next_i) as usize);
        assert(self@ =~= old(self)@ + all);
    }

    /// Appends the rows of a nullable integer column.
    pub fn push_sparse_ints(&mut self, rows: u64, data: Vec<(u64, i64)>)
        requires
            indices_ascend(rows, data@),
            rows <= usize::MAX,
        ensures
            final(self)@ == old(self)@ + sparse_rows(rows, data@, |i: i64| Value::Int(i)),
    {
        let ghost all = sparse_rows(rows, data@, |i: i64| Value::Int(i));
        let mut next_i: u64 = 0;
        let mut k: usize = 0;
        assert(self@ =~= old(self)@ + all.take(0));
        while k < data.len()
            invariant
                k <= data@.len(),
                indices_ascend(rows, data@),
                rows <= usize::MAX,
                all == sparse_rows(rows, data@, |i: i64| Value::Int(i)),
                next_i <= rows,
                k > 0 ==> next_i == data@[k - 1].0 + 1,
                k == 0 ==> next_i == 0,
                self@ == old(self)@ + all.take(next_i as int),
            decreases data@.len() - k,
        {
            let (i, f) = data[k];
            let ghost before = self@;
            proof {
                if k > 0 {
                    assert(data@[k - 1].0 < data@[k as int].0);
                }
                assert forall|row: int| next_i <= row <= i implies #[trigger] all[row] == if row
                    == i {
                    Value::Int(f)
                } else {
                    Value::Null
                } by {
                    if row == i {
                        lemma_lookup_listed(rows, data@, k as int);
                    } else {
                        lemma_lookup_gap(rows, data@, k as int, row);
                    }
                }
            }
            self.push_nulls((i - next_i) as usize);
            self.push(RawVal::Int(f));
            next_i = i + 1;
            assert(self@ =~= old(self)@ + all.take(next_i as int));
            k += 1;
        }
        proof {
            assert forall|row: int| next_i <= row < rows implies #[trigger] all[row]
                == Value::Null by {
                lemma_lookup_above(rows, data@, row);
            }
        }
        self.push_nulls((rows - next_i) as usize);
        assert(self@ =~= old(self)@ + all);
    }

    /// Appends the rows of a column of an ingestion batch.
    pub fn push_input(&mut self, column: InputColumn)
        requires
            column.wf(),
        ensures
            final(self)@ == old(self)@ + column.rows(),
    {
        match column {
            InputColumn::Int(vec) => self.push_ints(vec),
            InputColumn::Str(vec) => self.push_strings(vec),
            InputColumn::Float(vec) => self.push_floats(vec),
            InputColumn::Null(c) => self.push_nulls(c),
            InputColumn::Mixed(vec) => self.push_all(vec),
            InputColumn::NullableFloat(c, data) => self.push_sparse_floats(c, data),
            InputColumn::NullableInt(c, data) => self.push_sparse_ints(c, data),
        }
    }

    /// The values, nulls included.
    pub fn into_values(self) -> (values: Vec<RawVal>)
        ensures
            values@.map_values(|v: RawVal| v@) == self@,
    {
        self.data
    }

    /// Number of values, nulls included.
    pub fn len(&self) -> (n: usize)
        ensures
            n == self@.len(),
    {
        self.data.len()
    }

    /// Bytes of heap that the values take. Does not count the bytes of strings.
    pub fn heap_size_of_children(&self) -> (bytes: usize)
        ensures
            bytes == saturated(self@.len() * VALUE_BYTES as nat),
    {
        let n = self.data.len();
        if n > usize::MAX / VALUE_BYTES {
            usize::MAX
        } else {
            n * VALUE_BYTES
        }
    }
}

/// Entries with ascending row indices list the value of each entry for its row.
pub proof fn lemma_lookup_listed<V>(rows: u64, data: Seq<(u64, V)>, k: int)
    requires
        indices_ascend(rows, data),
        0 <= k < data.len(),
    ensures
        lookup(data, data[k].0 as int) == Some(data[k].1),
    decreases data.len(),
{
    if k < data.len() - 1 {
        let front = data.drop_last();
        assert(data[k].0 < data[data.len() - 1].0);
        assert forall|a: int, b: int| 0 <= a < b < front.len() implies (#[trigger] front[a]).0 < (
        #[trigger] front[b]).0 by {
            assert(data[a].0 < data[b].0);
        }
        assert forall|a: int| 0 <= a < front.len() implies (#[trigger] front[a]).0 < rows by {
            assert(data[a].0 < rows);
        }
        lemma_lookup_listed(rows, front, k);
    }
}

/// Entries with ascending row indices list nothing for a row between the
/// indices of two neighbours, nor for a row below the first index.
pub proof fn lemma_lookup_gap<V>(rows: u64, data: Seq<(u64, V)>, k: int, row: int)
    requires
        indices_ascend(rows, data),
        0 <= k < data.len(),
        row < data[k].0,
        k > 0 ==> data[k - 1].0 < row,
    ensures
        lookup(data, row) is None,
    decreases data.len(),
{
    let front = data.drop_last();
    assert forall|a: int, b: int| 0 <= a < b < front.len() implies (#[trigger] front[a]).0 < (
    #[trigger] front[b]).0 by {
        assert(data[a].0 < data[b].0);
    }
    assert forall|a: int| 0 <= a < front.len() implies (#[trigger] front[a]).0 < rows by {
        assert(data[a].0 < rows);
    }
    if k < data.len() - 1 {
        assert(data[k].0 < data[data.len() - 1].0);
        lemma_lookup_gap(rows, front, k, row);
    } else {
        lemma_lookup_above(rows, front, row);
    }
}

impl Clone for MixedCol {
    fn clone(&self) -> (copy: MixedCol)
        ensures
            copy@ == self@,
    {
        let mut data: Vec<RawVal> = Vec::with_capacity(self.data.len());
        let mut k: usize = 0;
        while k < self.data.len()
            invariant
                k <= self.data@.len(),
                data@.len() == k,
                forall|i: int| 0 <= i < k ==> (#[trigger] data@[i])@ == self.data@[i]@,
            decreases self.data@.len() - k,
        {
            data.push(self.data[k].clone());
            k += 1;
        }
        assert(data@.map_values(|v: RawVal| v@) =~= self.data@.map_values(|v: RawVal| v@));
        MixedCol { data }
    }
}

impl Default for MixedCol {
    fn default() -> (col: MixedCol)
        ensures
            col@ == Seq::<Value>::empty(),
    {
        MixedCol::new()
    }
}

} // verus!
