//! Dynamically typed column elements.

use vstd::prelude::*;
use vstd::string::*;

use crate::engine::vec_data::{
    lemma_bytes_le_antisymmetric, lemma_bytes_le_total, lemma_bytes_le_transitive, bytes_le,
    str_eq, str_le, VecData,
};

verus! {

/// First bit pattern above positive infinity: the patterns from here up to
/// the sign bit are the NaNs.
pub const FLOAT_NAN_KEY: u64 = 0x7ff0_0000_0000_0001;

/// The sign bit of a 64-bit float.
pub const FLOAT_SIGN: u64 = 0x8000_0000_0000_0000;

/// The place of a 64-bit float, given by its bit pattern, in the order of
/// floats: the numeric order, in which the two zeros are equal, with every
/// NaN equal to every other and above all numbers.
pub open spec fn float_key(bits: u64) -> int {
    let magnitude = if bits >= FLOAT_SIGN {
        bits - FLOAT_SIGN
    } else {
        bits as int
    };
    if magnitude >= FLOAT_NAN_KEY {
        FLOAT_NAN_KEY as int
    } else if bits >= FLOAT_SIGN {
        -magnitude
    } else {
        magnitude
    }
}

/// Computes `float_key`.
pub fn float_rank(bits: u64) -> (key: i64)
    ensures
        key == float_key(bits),
{
    let magnitude: u64 = if bits >= FLOAT_SIGN {
        bits - FLOAT_SIGN
    } else {
        bits
    };
    if magnitude >= FLOAT_NAN_KEY {
        FLOAT_NAN_KEY as i64
    } else if bits >= FLOAT_SIGN {
        -(magnitude as i64)
    } else {
        magnitude as i64
    }
}

/// A value of any of the types a column can hold. A float is held as its
/// 64-bit pattern.
#[derive(Clone, Copy, Debug, PartialEq, Eq, Hash)]
pub enum Val<'a> {
    Null,
    Bool(bool),
    Integer(i64),
    Str(&'a str),
    Float(u64),
}

impl<'a> Val<'a> {
    /// The place of the value's type among the types: nulls sort last.
    pub open spec fn type_rank(self) -> int {
        match self {
            Val::Bool(_) => 0,
            Val::Integer(_) => 1,
            Val::Str(_) => 2,
            Val::Float(_) => 3,
            Val::Null => 4,
        }
    }

    /// Computes `type_rank`.
    pub fn rank(self) -> (r: u8)
        ensures
            r == self.type_rank(),
    {
        match self {
            Val::Bool(_) => 0,
            Val::Integer(_) => 1,
            Val::Str(_) => 2,
            Val::Float(_) => 3,
            Val::Null => 4,
        }
    }
}

impl<'a> VecData for Val<'a> {
    /// Values of one type are ordered as the type orders them, values of
    /// different types by the rank of their types.
    open spec fn le(self, other: Self) -> bool {
        match (self, other) {
            (Val::Bool(a), Val::Bool(b)) => !a || b,
            (Val::Integer(a), Val::Integer(b)) => a <= b,
            (Val::Str(a), Val::Str(b)) => bytes_le(a.spec_bytes(), b.spec_bytes()),
            (Val::Float(a), Val::Float(b)) => float_key(a) <= float_key(b),
            _ => self.type_rank() <= other.type_rank(),
        }
    }

    proof fn le_total(a: Self, b: Self) {
        match (a, b) {
            (Val::Str(x), Val::Str(y)) => {
                lemma_bytes_le_total(x.spec_bytes(), y.spec_bytes());
            },
            _ => {},
        }
    }

    proof fn le_transitive(a: Self, b: Self, c: Self) {
        match (a, b, c) {
            (Val::Str(x), Val::Str(y), Val::Str(z)) => {
                lemma_bytes_le_transitive(x.spec_bytes(), y.spec_bytes(), z.spec_bytes());
            },
            _ => {},
        }
    }

    fn less_or_equal(self, other: Self) -> (b: bool) {
        match (self, other) {
            (Val::Bool(a), Val::Bool(b)) => !a || b,
            (Val::Integer(a), Val::Integer(b)) => a <= b,
            (Val::Str(a), Val::Str(b)) => str_le(a, b),
            (Val::Float(a), Val::Float(b)) => float_rank(a) <= float_rank(b),
            _ => self.rank() <= other.rank(),
        }
    }

    fn same(self, other: Self) -> (b: bool) {
        match (self, other) {
            (Val::Bool(a), Val::Bool(b)) => a == b,
            (Val::Integer(a), Val::Integer(b)) => a == b,
            (Val::Str(a), Val::Str(b)) => {
                proof {
                    if bytes_le(a.spec_bytes(), b.spec_bytes()) && bytes_le(
                        b.spec_bytes(),
                        a.spec_bytes(),
                    ) {
                        lemma_bytes_le_antisymmetric(a.spec_bytes(), b.spec_bytes());
                    }
                    lemma_bytes_le_total(a.spec_bytes(), a.spec_bytes());
                }
                str_eq(a, b)
            },
            (Val::Float(a), Val::Float(b)) => float_rank(a) == float_rank(b),
            _ => self.rank() == other.rank(),
        }
    }
}

} // verus!
