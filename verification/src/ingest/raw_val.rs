//! Values as they arrive at ingestion.

use vstd::prelude::*;

use crate::engine::vec_data::bytes_le;
use crate::mem_store::value::{float_key, float_rank};

verus! {

/// A value of a row that is being ingested. A float is held as its 64-bit pattern.
#[derive(Debug, PartialEq, Eq, Hash)]
pub enum RawVal {
    Null,
    Int(i64),
    Float(u64),
    Str(String),
}

/// What a `RawVal` stands for.
pub enum Value {
    Null,
    Int(i64),
    Float(u64),
    Str(Seq<char>),
}

impl View for RawVal {
    type V = Value;

    open spec fn view(&self) -> Value {
        match *self {
            RawVal::Null => Value::Null,
            RawVal::Int(i) => Value::Int(i),
            RawVal::Float(f) => Value::Float(f),
            RawVal::Str(s) => Value::Str(s@),
        }
    }
}

impl Clone for RawVal {
    fn clone(&self) -> (copy: RawVal)
        ensures
            copy@ == self@,
    {
        match self {
            RawVal::Null => RawVal::Null,
            RawVal::Int(i) => RawVal::Int(*i),
            RawVal::Float(f) => RawVal::Float(*f),
            RawVal::Str(s) => RawVal::Str(s.clone()),
        }
    }
}

impl Value {
    /// The place of the value's type among the types.
    pub open spec fn tag(self) -> int {
        match self {
            Value::Null => 0,
            Value::Int(_) => 1,
            Value::Float(_) => 2,
            Value::Str(_) => 3,
        }
    }

    /// The total order of values: by type first, then by value. Floats are
    /// ordered numerically with NaN above all numbers, strings by their bytes.
    pub open spec fn le(self, other: Value) -> bool {
        match (self, other) {
            (Value::Int(a), Value::Int(b)) => a <= b,
            (Value::Float(a), Value::Float(b)) => float_key(a) <= float_key(b),
            (Value::Str(a), Value::Str(b)) => bytes_le(
                vstd::utf8::encode_utf8(a),
                vstd::utf8::encode_utf8(b),
            ),
            _ => self.tag() <= other.tag(),
        }
    }
}

impl RawVal {
    /// Computes the tag of the value's type.
    pub fn tag(&self) -> (t: u8)
        ensures
            t == self@.tag(),
    {
        match self {
            RawVal::Null => 0,
            RawVal::Int(_) => 1,
            RawVal::Float(_) => 2,
            RawVal::Str(_) => 3,
        }
    }

    /// Decides the total order of values.
    pub fn less_or_equal(&self, other: &RawVal) -> (b: bool)
        ensures
            b == self@.le(other@),
    {
        match (self, other) {
            (RawVal::Int(a), RawVal::Int(b)) => *a <= *b,
            (RawVal::Float(a), RawVal::Float(b)) => float_rank(*a) <= float_rank(*b),
            (RawVal::Str(a), RawVal::Str(b)) => crate::engine::vec_data::str_le(
                a.as_str(),
                b.as_str(),
            ),
            _ => self.tag() <= other.tag(),
        }
    }
}

} // verus!
