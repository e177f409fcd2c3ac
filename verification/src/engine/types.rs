//! Typed column data as query results carry it.

use vstd::prelude::*;

use crate::mem_store::value::Val;

verus! {

/// The element type of a column.
#[derive(Debug, Clone, Copy, PartialEq, Eq, Hash, Structural)]
pub enum EncodingType {
    Null,
    U8,
    U32,
    I64,
    Str,
    Val,
}

/// A column of one element type. `Null(n)` is a column of `n` nulls.
#[derive(Debug, PartialEq)]
pub enum TypedVec<'a> {
    Null(usize),
    U8(Vec<u8>),
    U32(Vec<u32>),
    I64(Vec<i64>),
    Str(Vec<&'a str>),
    Val(Vec<Val<'a>>),
}

/// What a `TypedVec` holds.
pub enum ColumnView<'a> {
    Null(nat),
    U8(Seq<u8>),
    U32(Seq<u32>),
    I64(Seq<i64>),
    Str(Seq<&'a str>),
    Val(Seq<Val<'a>>),
}

impl<'a> ColumnView<'a> {
    /// Number of rows.
    pub open spec fn len(self) -> nat {
        match self {
            ColumnView::Null(n) => n,
            ColumnView::U8(v) => v.len(),
            ColumnView::U32(v) => v.len(),
            ColumnView::I64(v) => v.len(),
            ColumnView::Str(v) => v.len(),
            ColumnView::Val(v) => v.len(),
        }
    }

    /// The element type.
    pub open spec fn encoding(self) -> EncodingType {
        match self {
            ColumnView::Null(_) => EncodingType::Null,
            ColumnView::U8(_) => EncodingType::U8,
            ColumnView::U32(_) => EncodingType::U32,
            ColumnView::I64(_) => EncodingType::I64,
            ColumnView::Str(_) => EncodingType::Str,
            ColumnView::Val(_) => EncodingType::Val,
        }
    }

    /// The rows as dynamically typed values.
    pub open spec fn vals(self) -> Seq<Val<'a>> {
        match self {
            ColumnView::Null(n) => Seq::new(n, |i: int| Val::Null),
            ColumnView::U8(v) => v.map_values(|x: u8| Val::Integer(x as i64)),
            ColumnView::U32(v) => v.map_values(|x: u32| Val::Integer(x as i64)),
            ColumnView::I64(v) => v.map_values(|x: i64| Val::Integer(x)),
            ColumnView::Str(v) => v.map_values(|x: &'a str| Val::Str(x)),
            ColumnView::Val(v) => v,
        }
    }

    /// The first `limit` rows of this column followed by `other`: a column
    /// of the same type where both have one type, else a column of
    /// dynamically typed values.
    pub open spec fn concat(self, other: ColumnView<'a>, limit: nat) -> ColumnView<'a> {
        match (self, other) {
            (ColumnView::Null(a), ColumnView::Null(b)) => ColumnView::Null(
                if a + b < limit {
                    a + b
                } else {
                    limit
                },
            ),
            (ColumnView::U8(a), ColumnView::U8(b)) => ColumnView::U8(first(a + b, limit)),
            (ColumnView::U32(a), ColumnView::U32(b)) => ColumnView::U32(first(a + b, limit)),
            (ColumnView::I64(a), ColumnView::I64(b)) => ColumnView::I64(first(a + b, limit)),
            (ColumnView::Str(a), ColumnView::Str(b)) => ColumnView::Str(first(a + b, limit)),
            _ => ColumnView::Val(first(self.vals() + other.vals(), limit)),
        }
    }
}

/// The first `limit` elements of `rows`, all of them if there are fewer.
pub open spec fn first<T>(rows: Seq<T>, limit: nat) -> Seq<T> {
    if rows.len() <= limit {
        rows
    } else {
        rows.take(limit as int)
    }
}

impl<'a> View for TypedVec<'a> {
    type V = ColumnView<'a>;

    open spec fn view(&self) -> ColumnView<'a> {
        match *self {
            TypedVec::Null(n) => ColumnView::Null(n as nat),
            TypedVec::U8(v) => ColumnView::U8(v@),
            TypedVec::U32(v) => ColumnView::U32(v@),
            TypedVec::I64(v) => ColumnView::I64(v@),
            TypedVec::Str(v) => ColumnView::Str(v@),
            TypedVec::Val(v) => ColumnView::Val(v@),
        }
    }
}

/// Appends the first `count` elements of `more` to `rows`.
fn append_first<T: Copy>(rows: &mut Vec<T>, more: &Vec<T>, count: usize)
    requires
        count <= more@.len(),
    ensures
        final(rows)@ == old(rows)@ + more@.take(count as int),
{
    let mut k: usize = 0;
    assert(rows@ =~= old(rows)@ + more@.take(0));
    while k < count
        invariant
            k <= count <= more@.len(),
            rows@ == old(rows)@ + more@.take(k as int),
        decreases count - k,
    {
        rows.push(more[k]);
        assert(rows@ =~= old(rows)@ + more@.take(k + 1));
        k += 1;
    }
}

/// The first `limit` elements of `rows` followed by `more`.
fn joined<T: Copy>(rows: Vec<T>, more: &Vec<T>, limit: usize) -> (all: Vec<T>)
    ensures
        all@ == first(rows@ + more@, limit as nat),
{
    let mut all = rows;
    if all.len() >= limit {
        all.truncate(limit);
        assert(all@ =~= first(rows@ + more@, limit as nat));
    } else {
        let room = limit - all.len();
        let count = if more.len() < room {
            more.len()
        } else {
            room
        };
        append_first(&mut all, more, count);
        assert(all@ =~= first(rows@ + more@, limit as nat));
    }
    all
}

impl<'a> TypedVec<'a> {
    /// A column of `length` nulls.
    pub fn empty(length: usize) -> (column: TypedVec<'a>)
        ensures
            column@ == ColumnView::<'a>::Null(length as nat),
    {
        TypedVec::Null(length)
    }

    /// Number of rows.
    pub fn len(&self) -> (n: usize)
        ensures
            n == self@.len(),
    {
        match self {
            TypedVec::Null(n) => *n,
            TypedVec::U8(v) => v.len(),
            TypedVec::U32(v) => v.len(),
            TypedVec::I64(v) => v.len(),
            TypedVec::Str(v) => v.len(),
            TypedVec::Val(v) => v.len(),
        }
    }

    /// The element type.
    pub fn get_type(&self) -> (t: EncodingType)
        ensures
            t == self@.encoding(),
    {
        match self {
            TypedVec::Null(_) => EncodingType::Null,
            TypedVec::U8(_) => EncodingType::U8,
            TypedVec::U32(_) => EncodingType::U32,
            TypedVec::I64(_) => EncodingType::I64,
            TypedVec::Str(_) => EncodingType::Str,
            TypedVec::Val(_) => EncodingType::Val,
        }
    }

    /// The first `count` rows as dynamically typed values.
    pub fn to_vals(&self, count: usize) -> (vals: Vec<Val<'a>>)
        requires
            count <= self@.len(),
        ensures
            vals@ == self@.vals().take(count as int),
    {
        let mut vals: Vec<Val<'a>> = Vec::with_capacity(count);
        let mut k: usize = 0;
        while k < count
            invariant
                k <= count <= self@.len(),
                vals@ == self@.vals().take(k as int),
            decreases count - k,
        {
            let val = match self {
                TypedVec::Null(_) => Val::Null,
                TypedVec::U8(v) => Val::Integer(v[k] as i64),
                TypedVec::U32(v) => Val::Integer(v[k] as i64),
                TypedVec::I64(v) => Val::Integer(v[k]),
                TypedVec::Str(v) => Val::Str(v[k]),
                TypedVec::Val(v) => v[k],
            };
            vals.push(val);
            assert(vals@ =~= self@.vals().take(k + 1));
            k += 1;
        }
        vals
    }

    /// This column, cut to `limit` rows, followed by the rows of `other`
    /// as far as `limit` leaves room.
    pub fn extend(self, other: TypedVec<'a>, limit: usize) -> (column: TypedVec<'a>)
        ensures
            column@ == self@.concat(other@, limit as nat),
    {
        let kept = if self.len() < limit {
            self.len()
        } else {
            limit
        };
        let count = if other.len() < limit - kept {
            other.len()
        } else {
            limit - kept
        };
        match (self, other) {
            (TypedVec::Null(_), TypedVec::Null(_)) => TypedVec::Null(kept + count),
            (TypedVec::U8(a), TypedVec::U8(b)) => TypedVec::U8(joined(a, &b, limit)),
            (TypedVec::U32(a), TypedVec::U32(b)) => TypedVec::U32(joined(a, &b, limit)),
            (TypedVec::I64(a), TypedVec::I64(b)) => TypedVec::I64(joined(a, &b, limit)),
            (TypedVec::Str(a), TypedVec::Str(b)) => TypedVec::Str(joined(a, &b, limit)),
            (a, b) => {
                let mut vals = a.to_vals(kept);
                let more = b.to_vals(count);
                append_first(&mut vals, &more, count);
                assert(vals@ =~= first(a@.vals() + b@.vals(), limit as nat));
                TypedVec::Val(vals)
            },
        }
    }
}

} // verus!
