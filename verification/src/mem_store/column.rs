//! Sealed columns of a partition.

use vstd::prelude::*;

use crate::ingest::input_column::nulls;
use crate::ingest::raw_val::{RawVal, Value};
use crate::mem_store::raw_col::{saturated, MixedCol, VALUE_BYTES};
use crate::stringpack::{within_limits, IndexedPackedStrings};

verus! {

/// How a sealed column holds its values. A column of one type holds them in
/// a typed encoding, any other column holds them one by one.
#[derive(Debug)]
pub enum Encoding {
    Null(usize),
    Int(Vec<i64>),
    Float(Vec<u64>),
    String(IndexedPackedStrings),
    Mixed(Vec<RawVal>),
}

/// An immutable column of a partition.
#[derive(Debug)]
pub struct Column {
    name: String,
    data: Encoding,
}

/// All of `values` are integers.
pub open spec fn all_ints(values: Seq<Value>) -> bool {
    forall|i: int| 0 <= i < values.len() ==> (#[trigger] values[i]) is Int
}

/// All of `values` are floats.
pub open spec fn all_floats(values: Seq<Value>) -> bool {
    forall|i: int| 0 <= i < values.len() ==> (#[trigger] values[i]) is Float
}

/// All of `values` are strings.
pub open spec fn all_strings(values: Seq<Value>) -> bool {
    forall|i: int| 0 <= i < values.len() ==> (#[trigger] values[i]) is Str
}

/// The texts of values that are all strings.
pub open spec fn texts(values: Seq<Value>) -> Seq<Seq<char>> {
    values.map_values(|v: Value| v->Str_0)
}

/// All of `values` are null.
pub open spec fn all_null(values: Seq<Value>) -> bool {
    forall|i: int| 0 <= i < values.len() ==> (#[trigger] values[i]) is Null
}

impl Encoding {
    /// The strings of a string encoding are stored consistently.
    pub open spec fn wf(&self) -> bool {
        match *self {
            Encoding::String(strings) => strings.wf(),
            _ => true,
        }
    }

    /// The values, row by row.
    pub open spec fn values(&self) -> Seq<Value> {
        match *self {
            Encoding::Null(count) => nulls(count as nat),
            Encoding::Int(ints) => ints@.map_values(|i: i64| Value::Int(i)),
            Encoding::Float(floats) => floats@.map_values(|f: u64| Value::Float(f)),
            Encoding::String(strings) => strings@.map_values(|s: Seq<char>| Value::Str(s)),
            Encoding::Mixed(values) => values@.map_values(|v: RawVal| v@),
        }
    }

    /// Bytes of heap that the encoding takes, not counting the bytes of the
    /// strings of a mixed column.
    pub open spec fn heap_bytes(&self) -> nat {
        match *self {
            Encoding::Null(_) => 0,
            Encoding::Int(ints) => ints@.len() * 8,
            Encoding::Float(floats) => floats@.len() * 8,
            Encoding::String(strings) => strings@.len() * 8 + strings.arena_len(),
            Encoding::Mixed(values) => values@.len() * VALUE_BYTES as nat,
        }
    }
}

/// `a * b` as far as a `usize` can hold it.
fn saturating_product(a: usize, b: usize) -> (product: usize)
    requires
        b > 0,
    ensures
        product == saturated((a * b) as nat),
{
    if a > usize::MAX / b {
        assert(a * b > usize::MAX) by (nonlinear_arith)
            requires
                a > usize::MAX / b,
                b > 0,
        ;
        usize::MAX
    } else {
        assert(a * b <= usize::MAX) by (nonlinear_arith)
            requires
                a <= usize::MAX / b,
                b > 0,
        ;
        a * b
    }
}

impl Column {
    /// A column of the given name and encoding.
    pub fn new(name: String, data: Encoding) -> (column: Column)
        ensures
            column.spec_name() == name@,
            column.spec_data() == data,
    {
        Column { name, data }
    }

    /// The name in specifications.
    pub closed spec fn spec_name(&self) -> Seq<char> {
        self.name@
    }

    /// The encoding in specifications.
    pub closed spec fn spec_data(&self) -> Encoding {
        self.data
    }

    /// The values, row by row.
    pub open spec fn values(&self) -> Seq<Value> {
        self.spec_data().values()
    }

    /// The name of the column.
    pub fn name(&self) -> (name: &str)
        ensures
            name@ == self.spec_name(),
    {
        self.name.as_str()
    }

    /// The encoding of the column.
    pub fn data(&self) -> (data: &Encoding)
        ensures
            *data == self.spec_data(),
    {
        &self.data
    }

    /// Number of rows.
    pub fn len(&self) -> (n: usize)
        ensures
            n == self.values().len(),
    {
        match &self.data {
            Encoding::Null(count) => *count,
            Encoding::Int(ints) => ints.len(),
            Encoding::Float(floats) => floats.len(),
            Encoding::String(strings) => strings.len(),
            Encoding::Mixed(values) => values.len(),
        }
    }

    /// Bytes of heap that the column takes, as far as a `usize` can hold it.
    pub fn heap_size_of_children(&self) -> (bytes: usize)
        requires
            self.spec_data().wf(),
        ensures
            bytes == saturated(self.spec_data().heap_bytes()),
    {
        match &self.data {
            Encoding::Null(_) => 0,
            Encoding::Int(ints) => saturating_product(ints.len(), 8),
            Encoding::Float(floats) => saturating_product(floats.len(), 8),
            Encoding::String(strings) => {
                let index = saturating_product(strings.len(), 8);
                let arena = strings.arena_bytes();
                if index > usize::MAX - arena {
                    usize::MAX
                } else {
                    index + arena
                }
            },
            Encoding::Mixed(values) => saturating_product(values.len(), VALUE_BYTES),
        }
    }
}

impl MixedCol {
    /// Seals the column under `name`. A column of nulls, of integers or of
    /// floats gets the encoding of its type, and so does a column of
    /// strings that fit the limits of the packed encoding. Any other column
    /// keeps its values one by one.
    pub fn finalize(self, name: &str) -> (column: Column)
        ensures
            column.spec_name() == name@,
            column.values() == self@,
            column.spec_data().wf(),
            all_null(self@) ==> column.spec_data() is Null,
            !all_null(self@) && all_ints(self@) ==> column.spec_data() is Int,
            !all_null(self@) && all_floats(self@) ==> column.spec_data() is Float,
            !all_null(self@) && !all_ints(self@) && !all_floats(self@) && !all_strings(self@)
                ==> column.spec_data() is Mixed,
            column.spec_data() is String <==> !all_null(self@) && all_strings(self@)
                && within_limits(texts(self@)),
    {
        let values = self.into_values();
        let ghost rows = values@.map_values(|v: RawVal| v@);
        let mut has_null = false;
        let mut has_int = false;
        let mut has_float = false;
        let mut has_str = false;
        let mut k: usize = 0;
        while k < values.len()
            invariant
                k <= values@.len(),
                rows == values@.map_values(|v: RawVal| v@),
                has_null <==> exists|i: int| 0 <= i < k && (#[trigger] rows[i]) is Null,
                has_int <==> exists|i: int| 0 <= i < k && (#[trigger] rows[i]) is Int,
                has_float <==> exists|i: int| 0 <= i < k && (#[trigger] rows[i]) is Float,
                has_str <==> exists|i: int| 0 <= i < k && (#[trigger] rows[i]) is Str,
            decreases values@.len() - k,
        {
            assert(rows[k as int] == values@[k as int]@);
            match &values[k] {
                RawVal::Null => {
                    has_null = true;
                },
                RawVal::Int(_) => {
                    has_int = true;
                },
                RawVal::Float(_) => {
                    has_float = true;
                },
                RawVal::Str(_) => {
                    has_str = true;
                },
            }
            k += 1;
        }
        let name = name.to_owned();
        if !has_int && !has_float && !has_str {
            assert(rows =~= nulls(values@.len()));
            Column { name, data: Encoding::Null(values.len()) }
        } else if !has_null && !has_float && !has_str {
            let mut ints: Vec<i64> = Vec::with_capacity(values.len());
            let mut k: usize = 0;
            while k < values.len()
                invariant
                    k <= values@.len(),
                    rows == values@.map_values(|v: RawVal| v@),
                    all_ints(rows),
                    ints@.len() == k,
                    forall|i: int| 0 <= i < k ==> Value::Int(#[trigger] ints@[i]) == rows[i],
                decreases values@.len() - k,
            {
                assert(rows[k as int] == values@[k as int]@);
                if let RawVal::Int(i) = &values[k] {
                    ints.push(*i);
                }
                k += 1;
            }
            assert(ints@.map_values(|i: i64| Value::Int(i)) =~= rows);
            Column { name, data: Encoding::Int(ints) }
        } else if !has_null && !has_int && !has_str {
            let mut floats: Vec<u64> = Vec::with_capacity(values.len());
            let mut k: usize = 0;
            while k < values.len()
                invariant
                    k <= values@.len(),
                    rows == values@.map_values(|v: RawVal| v@),
                    all_floats(rows),
                    floats@.len() == k,
                    forall|i: int| 0 <= i < k ==> Value::Float(#[trigger] floats@[i]) == rows[i],
                decreases values@.len() - k,
            {
                assert(rows[k as int] == values@[k as int]@);
                if let RawVal::Float(f) = &values[k] {
                    floats.push(*f);
                }
                k += 1;
            }
            assert(floats@.map_values(|f: u64| Value::Float(f)) =~= rows);
            Column { name, data: Encoding::Float(floats) }
        } else if !has_null && !has_int && !has_float {
            let mut strings = IndexedPackedStrings::new();
            let mut packed = true;
            let mut k: usize = 0;
            while packed && k < values.len()
                invariant
                    k <= values@.len(),
                    rows == values@.map_values(|v: RawVal| v@),
                    all_strings(rows),
                    strings.wf(),
                    packed ==> strings@.len() == k,
                    packed ==> forall|i: int|
                        0 <= i < k ==> Value::Str(#[trigger] strings@[i]) == rows[i],
                    !packed ==> !within_limits(texts(rows)),
                decreases values@.len() - k + if packed {
                    1int
                } else {
                    0int
                },
            {
                assert(rows[k as int] == values@[k as int]@);
                if let RawVal::Str(s) = &values[k] {
                    let ghost pushed = strings@;
                    if strings.push(s.as_str()).is_err() {
                        proof {
                            assert(texts(rows).take(k as int) =~= pushed);
                            assert(texts(rows)[k as int] == s@);
                        }
                        packed = false;
                    }
                }
                if packed {
                    k += 1;
                }
            }
            if packed {
                proof {
                    assert(strings@.map_values(|s: Seq<char>| Value::Str(s)) =~= rows);
                    assert(strings@ =~= texts(rows));
                    strings.lemma_within_limits();
                }
                Column { name, data: Encoding::String(strings) }
            } else {
                Column { name, data: Encoding::Mixed(values) }
            }
        } else {
            Column { name, data: Encoding::Mixed(values) }
        }
    }
}

} // verus!
