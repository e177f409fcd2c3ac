//! Merging the results of two partitions into one.
//!
//! A merge runs in two steps. A first pass over the key column decides, row
//! by row, where the output comes from and records the decisions in an *ops
//! stream*. Every other column is then merged by replaying that stream.

use vstd::prelude::*;

use crate::engine::aggregator::Aggregator;
use crate::engine::comparator::{lemma_direction_order, CmpLessThan, Comparator};
use crate::engine::operators::merge_deduplicate;
use crate::engine::operators::merge_deduplicate::{
    consumed, covers, dedup_ops, folds_match, shared, lemma_drop_merged_push, lemma_ops_push,
        sorted_by,
        strictly_sorted_by,
};
use crate::engine::comparator::CmpGreaterThan;
use crate::engine::types::{ColumnView, EncodingType, TypedVec};
use crate::engine::vec_data::{equiv, VecData};
use crate::errors::{ErrorKind, QueryError};
use vstd::slice::slice_subrange;
use vstd::string::*;

use crate::text::{append_decimal, decimal};

verus! {

/// One decision of a deduplicating merge.
#[derive(Debug, PartialEq, Eq, Clone, Copy, Structural)]
pub enum MergeOp {
    /// The next left row starts a new output row.
    TakeLeft,
    /// The next right row starts a new output row.
    TakeRight,
    /// The next right row has the key of the last output row and is folded into it.
    MergeRight,
}

/// A run of rows with equal leading keys: how many of them come from the left
/// input and how many from the right.
#[derive(Debug, PartialEq, Eq, Clone, Copy, Structural)]
pub struct Premerge {
    pub left: u32,
    pub right: u32,
}

/// Number of left rows that `ops` consumes.
pub open spec fn taken_left(ops: Seq<MergeOp>) -> nat
    decreases ops.len(),
{
    if ops.len() == 0 {
        0
    } else if ops.last() == MergeOp::TakeLeft {
        taken_left(ops.drop_last()) + 1
    } else {
        taken_left(ops.drop_last())
    }
}

/// Number of right rows that `ops` consumes.
pub open spec fn taken_right(ops: Seq<MergeOp>) -> nat
    decreases ops.len(),
{
    if ops.len() == 0 {
        0
    } else if ops.last() == MergeOp::TakeLeft {
        taken_right(ops.drop_last())
    } else {
        taken_right(ops.drop_last()) + 1
    }
}

/// Number of output rows that `ops` produces.
pub open spec fn emitted(ops: Seq<MergeOp>) -> nat
    decreases ops.len(),
{
    if ops.len() == 0 {
        0
    } else if ops.last() == MergeOp::MergeRight {
        emitted(ops.drop_last())
    } else {
        emitted(ops.drop_last()) + 1
    }
}

/// Number of `MergeRight` in `ops`.
pub open spec fn merged_count(ops: Seq<MergeOp>) -> nat
    decreases ops.len(),
{
    if ops.len() == 0 {
        0
    } else if ops.last() == MergeOp::MergeRight {
        merged_count(ops.drop_last()) + 1
    } else {
        merged_count(ops.drop_last())
    }
}

/// `ops` consumes no more rows than the inputs have, and never folds a row
/// before an output row exists.
pub open spec fn ops_fit(ops: Seq<MergeOp>, left_len: nat, right_len: nat) -> bool {
    &&& taken_left(ops) <= left_len
    &&& taken_right(ops) <= right_len
    &&& ops.len() > 0 ==> ops[0] != MergeOp::MergeRight
}

/// The column that replaying `ops` builds from `left` and `right` when folded
/// rows are dropped.
pub open spec fn drop_merged<T>(left: Seq<T>, right: Seq<T>, ops: Seq<MergeOp>) -> Seq<T>
    decreases ops.len(),
{
    if ops.len() == 0 {
        Seq::empty()
    } else {
        let before = ops.drop_last();
        match ops.last() {
            MergeOp::TakeLeft => drop_merged(left, right, before).push(
                left[taken_left(before) as int],
            ),
            MergeOp::TakeRight => drop_merged(left, right, before).push(
                right[taken_right(before) as int],
            ),
            MergeOp::MergeRight => drop_merged(left, right, before),
        }
    }
}

/// The column of aggregate states that replaying `ops` builds from `left` and
/// `right` when folded rows are combined into the last output row.
pub open spec fn aggregated(
    left: Seq<i64>,
    right: Seq<i64>,
    ops: Seq<MergeOp>,
    aggregator: Aggregator,
) -> Seq<i64>
    decreases ops.len(),
{
    if ops.len() == 0 {
        Seq::empty()
    } else {
        let before = ops.drop_last();
        let states = aggregated(left, right, before, aggregator);
        match ops.last() {
            MergeOp::TakeLeft => states.push(left[taken_left(before) as int]),
            MergeOp::TakeRight => states.push(right[taken_right(before) as int]),
            MergeOp::MergeRight => states.update(
                states.len() - 1,
                aggregator.combined(states.last(), right[taken_right(before) as int]),
            ),
        }
    }
}

/// Number of left rows that the choices `ops` consume.
pub open spec fn picked_left(ops: Seq<bool>) -> nat
    decreases ops.len(),
{
    if ops.len() == 0 {
        0
    } else if ops.last() {
        picked_left(ops.drop_last()) + 1
    } else {
        picked_left(ops.drop_last())
    }
}

/// Number of right rows that the choices `ops` consume.
pub open spec fn picked_right(ops: Seq<bool>) -> nat
    decreases ops.len(),
{
    if ops.len() == 0 {
        0
    } else if ops.last() {
        picked_right(ops.drop_last())
    } else {
        picked_right(ops.drop_last()) + 1
    }
}

/// The column that replaying the choices `ops` builds: `true` takes the next
/// left row, `false` the next right row.
pub open spec fn merged<T>(left: Seq<T>, right: Seq<T>, ops: Seq<bool>) -> Seq<T>
    decreases ops.len(),
{
    if ops.len() == 0 {
        Seq::empty()
    } else {
        let before = ops.drop_last();
        if ops.last() {
            merged(left, right, before).push(left[picked_left(before) as int])
        } else {
            merged(left, right, before).push(right[picked_right(before) as int])
        }
    }
}

/// A prefix of an ops stream consumes and produces no more than the whole.
pub proof fn lemma_ops_prefix(ops: Seq<MergeOp>, k: int)
    requires
        0 <= k <= ops.len(),
    ensures
        taken_left(ops.take(k)) <= taken_left(ops),
        taken_right(ops.take(k)) <= taken_right(ops),
        emitted(ops.take(k)) <= emitted(ops),
        k > 0 && ops[0] != MergeOp::MergeRight ==> emitted(ops.take(k)) > 0,
    decreases ops.len() - k,
{
    if k == ops.len() {
        assert(ops.take(k) =~= ops);
    } else {
        lemma_ops_prefix(ops, k + 1);
        assert(ops.take(k + 1).drop_last() =~= ops.take(k));
    }
    if k > 0 && ops[0] != MergeOp::MergeRight {
        lemma_first_take_emits(ops.take(k));
    }
}

/// A stream that starts with a take produces at least one row.
pub proof fn lemma_first_take_emits(ops: Seq<MergeOp>)
    requires
        ops.len() > 0,
        ops[0] != MergeOp::MergeRight,
    ensures
        emitted(ops) > 0,
    decreases ops.len(),
{
    if ops.len() > 1 {
        lemma_first_take_emits(ops.drop_last());
    }
}

/// Every op consumes one row, and every op but `MergeRight` produces one.
pub proof fn lemma_ops_counts(ops: Seq<MergeOp>)
    ensures
        taken_left(ops) + taken_right(ops) == ops.len(),
        emitted(ops) + merged_count(ops) == ops.len(),
    decreases ops.len(),
{
    if ops.len() > 0 {
        lemma_ops_counts(ops.drop_last());
    }
}

/// A prefix of a stream of choices consumes no more than the whole.
pub proof fn lemma_picks_prefix(ops: Seq<bool>, k: int)
    requires
        0 <= k <= ops.len(),
    ensures
        picked_left(ops.take(k)) <= picked_left(ops),
        picked_right(ops.take(k)) <= picked_right(ops),
        picked_left(ops.take(k)) + picked_right(ops.take(k)) == k,
    decreases ops.len() - k,
{
    if k == ops.len() {
        assert(ops.take(k) =~= ops);
        lemma_picks_total(ops);
    } else {
        lemma_picks_prefix(ops, k + 1);
        assert(ops.take(k + 1).drop_last() =~= ops.take(k));
    }
}

/// Every choice consumes one row.
pub proof fn lemma_picks_total(ops: Seq<bool>)
    ensures
        picked_left(ops) + picked_right(ops) == ops.len(),
    decreases ops.len(),
{
    if ops.len() > 0 {
        lemma_picks_total(ops.drop_last());
    }
}

/// Merges the aggregate states of two partitions by replaying `ops`.
pub fn merge_aggregate(left: &[i64], right: &[i64], ops: &[MergeOp], aggregator: Aggregator)
    -> (result:
    Vec<i64>)
    requires
        ops_fit(ops@, left@.len(), right@.len()),
    ensures
        result@ == aggregated(left@, right@, ops@, aggregator),
        result@.len() == emitted(ops@),
{
    let mut result: Vec<i64> = Vec::with_capacity(ops.len());
    let mut i: usize = 0;
    let mut j: usize = 0;
    let mut k: usize = 0;
    assert(ops@.take(0) =~= Seq::<MergeOp>::empty());
    while k < ops.len()
        invariant
            k <= ops@.len(),
            ops_fit(ops@, left@.len(), right@.len()),
            i == taken_left(ops@.take(k as int)),
            j == taken_right(ops@.take(k as int)),
            result@ == aggregated(left@, right@, ops@.take(k as int), aggregator),
            result@.len() == emitted(ops@.take(k as int)),
        decreases ops@.len() - k,
    {
        proof {
            lemma_ops_prefix(ops@, k + 1);
            lemma_ops_prefix(ops@, k as int);
            assert(ops@.take(k + 1).drop_last() =~= ops@.take(k as int));
        }
        match ops[k] {
            MergeOp::TakeLeft => {
                result.push(left[i]);
                i += 1;
            },
            MergeOp::TakeRight => {
                result.push(right[j]);
                j += 1;
            },
            MergeOp::MergeRight => {
                let last = result.len() - 1;
                let state = aggregator.combine_i64(result[last], right[j]);
                result.set(last, state);
                j += 1;
            },
        }
        k += 1;
    }
    assert(ops@.take(k as int) =~= ops@);
    result
}

/// Merges a column of two partitions by replaying the choices `ops`.
pub fn merge<T: Copy>(left: &[T], right: &[T], ops: &[bool]) -> (result: Vec<T>)
    requires
        picked_left(ops@) <= left@.len(),
        picked_right(ops@) <= right@.len(),
    ensures
        result@ == merged(left@, right@, ops@),
        result@.len() == ops@.len(),
{
    let mut result: Vec<T> = Vec::with_capacity(ops.len());
    let mut i: usize = 0;
    let mut j: usize = 0;
    let mut k: usize = 0;
    assert(ops@.take(0) =~= Seq::<bool>::empty());
    while k < ops.len()
        invariant
            k <= ops@.len(),
            picked_left(ops@) <= left@.len(),
            picked_right(ops@) <= right@.len(),
            i == picked_left(ops@.take(k as int)),
            j == picked_right(ops@.take(k as int)),
            result@ == merged(left@, right@, ops@.take(k as int)),
            result@.len() == k,
        decreases ops@.len() - k,
    {
        proof {
            lemma_picks_prefix(ops@, k + 1);
            assert(ops@.take(k + 1).drop_last() =~= ops@.take(k as int));
        }
        if ops[k] {
            result.push(left[i]);
            i += 1;
        } else {
            result.push(right[j]);
            j += 1;
        }
        k += 1;
    }
    assert(ops@.take(k as int) =~= ops@);
    result
}

/// Merges a key column of two partitions by replaying `ops`: a folded row
/// repeats the key of the last output row and is dropped.
pub fn merge_drop<T: Copy>(left: &[T], right: &[T], ops: &[MergeOp]) -> (result: Vec<T>)
    requires
        taken_left(ops@) <= left@.len(),
        taken_right(ops@) <= right@.len(),
    ensures
        result@ == drop_merged(left@, right@, ops@),
        result@.len() == emitted(ops@),
{
    // One slot per operation is an upper bound: merged rows emit nothing.
    let mut result: Vec<T> = Vec::with_capacity(ops.len());
    let mut i: usize = 0;
    let mut j: usize = 0;
    let mut k: usize = 0;
    assert(ops@.take(0) =~= Seq::<MergeOp>::empty());
    while k < ops.len()
        invariant
            k <= ops@.len(),
            taken_left(ops@) <= left@.len(),
            taken_right(ops@) <= right@.len(),
            i == taken_left(ops@.take(k as int)),
            j == taken_right(ops@.take(k as int)),
            result@ == drop_merged(left@, right@, ops@.take(k as int)),
            result@.len() == emitted(ops@.take(k as int)),
        decreases ops@.len() - k,
    {
        proof {
            lemma_ops_prefix(ops@, k + 1);
            assert(ops@.take(k + 1).drop_last() =~= ops@.take(k as int));
        }
        match ops[k] {
            MergeOp::TakeLeft => {
                result.push(left[i]);
                i += 1;
            },
            MergeOp::TakeRight => {
                result.push(right[j]);
                j += 1;
            },
            MergeOp::MergeRight => {
                assert(taken_right(ops@.take(k + 1)) == j + 1);
                assert(right@.len() == right.len());
                j += 1;
            },
        }
        k += 1;
    }
    assert(ops@.take(k as int) =~= ops@);
    result
}

/// The choices of a merge of `left` and `right` in the order `C` that stops
/// after `limit` rows: the left row is taken while it may come before the
/// right row, so that of two equal rows the left one comes first.
pub open spec fn merge_choices<T: VecData, C: Comparator<T>>(
    left: Seq<T>,
    right: Seq<T>,
    limit: nat,
) -> Seq<bool>
    decreases left.len() + right.len(),
{
    if limit == 0 {
        Seq::empty()
    } else if left.len() > 0 && (right.len() == 0 || C::before_or_equal(left[0], right[0])) {
        seq![true] + merge_choices::<T, C>(left.drop_first(), right, (limit - 1) as nat)
    } else if right.len() > 0 {
        seq![false] + merge_choices::<T, C>(left, right.drop_first(), (limit - 1) as nat)
    } else {
        Seq::empty()
    }
}

/// No right row has been placed before a left row that it does not strictly precede.
pub open spec fn left_first<T: VecData, C: Comparator<T>>(rows: Seq<T>, ops: Seq<bool>) -> bool {
    forall|p: int, q: int|
        0 <= p < q < rows.len() && !ops[p] && ops[q] ==> C::before(
            #[trigger] rows[p],
            #[trigger] rows[q],
        )
}

/// How the rows merged so far stand to the rows not consumed yet, from
/// position `i` of `left` and `j` of `right` on, while sorted inputs are
/// merged: the rows are sorted and placed left first, no row comes after a
/// row still to come, and every right row strictly precedes the left rows
/// still to come.
pub open spec fn rows_ahead<T: VecData, C: Comparator<T>>(
    rows: Seq<T>,
    ops: Seq<bool>,
    left: Seq<T>,
    right: Seq<T>,
    i: int,
    j: int,
) -> bool {
    &&& rows.len() == ops.len()
    &&& sorted_by::<T, C>(rows)
    &&& left_first::<T, C>(rows, ops)
    &&& forall|x: int, k: int|
        0 <= x < rows.len() && i <= k < left.len() ==> C::before_or_equal(
            #[trigger] rows[x],
            #[trigger] left[k],
        )
    &&& forall|x: int, k: int|
        0 <= x < rows.len() && j <= k < right.len() ==> C::before_or_equal(
            #[trigger] rows[x],
            #[trigger] right[k],
        )
    &&& forall|x: int, k: int|
        0 <= x < rows.len() && i <= k < left.len() && !ops[x] ==> C::before(
            #[trigger] rows[x],
            #[trigger] left[k],
        )
}

/// Taking the next left row keeps `rows_ahead`.
pub proof fn lemma_rows_ahead_take_left<T: VecData, C: Comparator<T>>(
    rows: Seq<T>,
    ops: Seq<bool>,
    left: Seq<T>,
    right: Seq<T>,
    i: int,
    j: int,
)
    requires
        sorted_by::<T, C>(left),
        sorted_by::<T, C>(right),
        rows_ahead::<T, C>(rows, ops, left, right, i, j),
        0 <= i < left.len(),
        0 <= j <= right.len(),
        j < right.len() ==> C::before_or_equal(left[i], right[j]),
    ensures
        rows_ahead::<T, C>(rows.push(left[i]), ops.push(true), left, right, i + 1, j),
{
    let longer = rows.push(left[i]);
    let choices = ops.push(true);
    assert forall|a: int, b: int| 0 <= a < b < longer.len() implies C::before_or_equal(
        #[trigger] longer[a],
        #[trigger] longer[b],
    ) by {
        if b < rows.len() {
            assert(C::before_or_equal(rows[a], rows[b]));
        } else {
            assert(C::before_or_equal(rows[a], left[i]));
        }
    }
    assert forall|p: int, q: int| 0 <= p < q < longer.len() && !choices[p] && choices[q]
        implies C::before(
        #[trigger] longer[p],
        #[trigger] longer[q],
    ) by {
        if q < rows.len() {
            assert(C::before(rows[p], rows[q]));
        } else {
            assert(C::before(rows[p], left[i]));
        }
    }
    assert forall|x: int, k: int| 0 <= x < longer.len() && i + 1 <= k < left.len()
        implies C::before_or_equal(
        #[trigger] longer[x],
        #[trigger] left[k],
    ) by {
        if x < rows.len() {
            assert(C::before_or_equal(rows[x], left[k]));
        } else {
            assert(C::before_or_equal(left[i], left[k]));
        }
    }
    assert forall|x: int, k: int| 0 <= x < longer.len() && j <= k < right.len()
        implies C::before_or_equal(
        #[trigger] longer[x],
        #[trigger] right[k],
    ) by {
        if x < rows.len() {
            assert(C::before_or_equal(rows[x], right[k]));
        } else if k > j {
            assert(C::before_or_equal(right[j], right[k]));
            lemma_direction_order::<T, C>(left[i], right[j], right[k]);
        }
    }
    assert forall|x: int, k: int| 0 <= x < longer.len() && i + 1 <= k < left.len()
        && !choices[x] implies C::before(
        #[trigger] longer[x],
        #[trigger] left[k],
    ) by {
        assert(C::before(rows[x], left[k]));
    }
}

/// Taking the next right row keeps `rows_ahead`.
pub proof fn lemma_rows_ahead_take_right<T: VecData, C: Comparator<T>>(
    rows: Seq<T>,
    ops: Seq<bool>,
    left: Seq<T>,
    right: Seq<T>,
    i: int,
    j: int,
)
    requires
        sorted_by::<T, C>(left),
        sorted_by::<T, C>(right),
        rows_ahead::<T, C>(rows, ops, left, right, i, j),
        0 <= i <= left.len(),
        0 <= j < right.len(),
        i < left.len() ==> !C::before_or_equal(left[i], right[j]),
    ensures
        rows_ahead::<T, C>(rows.push(right[j]), ops.push(false), left, right, i, j + 1),
{
    let longer = rows.push(right[j]);
    let choices = ops.push(false);
    assert forall|a: int, b: int| 0 <= a < b < longer.len() implies C::before_or_equal(
        #[trigger] longer[a],
        #[trigger] longer[b],
    ) by {
        if b < rows.len() {
            assert(C::before_or_equal(rows[a], rows[b]));
        } else {
            assert(C::before_or_equal(rows[a], right[j]));
        }
    }
    assert forall|p: int, q: int| 0 <= p < q < longer.len() && !choices[p] && choices[q]
        implies C::before(
        #[trigger] longer[p],
        #[trigger] longer[q],
    ) by {
        assert(C::before(rows[p], rows[q]));
    }
    assert forall|x: int, k: int| 0 <= x < longer.len() && i <= k < left.len()
        implies C::before_or_equal(
        #[trigger] longer[x],
        #[trigger] left[k],
    ) && (!choices[x] ==> C::before(longer[x], left[k])) by {
        if x < rows.len() {
            assert(C::before_or_equal(rows[x], left[k]));
            if !ops[x] {
                assert(C::before(rows[x], left[k]));
            }
        } else {
            lemma_direction_order::<T, C>(right[j], left[i], left[i]);
            lemma_direction_order::<T, C>(right[j], left[k], left[k]);
            if k > i {
                assert(C::before_or_equal(left[i], left[k]));
                lemma_direction_order::<T, C>(right[j], left[i], left[k]);
                lemma_direction_order::<T, C>(left[i], left[k], right[j]);
            }
        }
    }
    assert forall|x: int, k: int| 0 <= x < longer.len() && j + 1 <= k < right.len()
        implies C::before_or_equal(
        #[trigger] longer[x],
        #[trigger] right[k],
    ) by {
        if x < rows.len() {
            assert(C::before_or_equal(rows[x], right[k]));
        } else {
            assert(C::before_or_equal(right[j], right[k]));
        }
    }
}

/// A stream of choices with one more choice.
pub proof fn lemma_merged_push<T>(left: Seq<T>, right: Seq<T>, ops: Seq<bool>, op: bool)
    ensures
        picked_left(ops.push(op)) == picked_left(ops) + if op {
            1nat
        } else {
            0nat
        },
        picked_right(ops.push(op)) == picked_right(ops) + if op {
            0nat
        } else {
            1nat
        },
        merged(left, right, ops.push(op)) == if op {
            merged(left, right, ops).push(left[picked_left(ops) as int])
        } else {
            merged(left, right, ops).push(right[picked_right(ops) as int])
        },
{
    assert(ops.push(op).drop_last() =~= ops);
}

/// Merges two columns that are sorted in the order `C` into one sorted column
/// of at most `limit` rows. Of rows that are equal in the order the left ones
/// come first. The choices say for every output row which input it is from.
pub fn merge_sort<T: VecData, C: Comparator<T>>(left: &[T], right: &[T], limit: usize) -> (sorted: (
    Vec<T>,
    Vec<bool>,
))
    ensures
        sorted.1@ == merge_choices::<T, C>(left@, right@, limit as nat),
        sorted.0@ == merged(left@, right@, sorted.1@),
        sorted.0@.len() == sorted.1@.len(),
        sorted.0@.len() == if left@.len() + right@.len() < limit {
            left@.len() + right@.len()
        } else {
            limit as nat
        },
        picked_left(sorted.1@) <= left@.len(),
        picked_right(sorted.1@) <= right@.len(),
        sorted_by::<T, C>(left@) && sorted_by::<T, C>(right@) ==> sorted_by::<T, C>(sorted.0@)
            && left_first::<T, C>(sorted.0@, sorted.1@),
{
    let mut result: Vec<T> = Vec::new();
    let mut ops: Vec<bool> = Vec::new();
    let ghost all = merge_choices::<T, C>(left@, right@, limit as nat);
    let ghost ordered = sorted_by::<T, C>(left@) && sorted_by::<T, C>(right@);

    let mut i: usize = 0;
    let mut j: usize = 0;
    assert(left@.skip(0) =~= left@ && right@.skip(0) =~= right@);
    assert(ops@ + all =~= all);
    while (i < left.len() || j < right.len()) && i + j < limit
        invariant
            i <= left@.len(),
            j <= right@.len(),
            i + j <= limit,
            ordered == (sorted_by::<T, C>(left@) && sorted_by::<T, C>(right@)),
            ops@ + merge_choices::<T, C>(
                left@.skip(i as int),
                right@.skip(j as int),
                (limit - i - j) as nat,
            ) == all,
            result@ == merged(left@, right@, ops@),
            i == picked_left(ops@),
            j == picked_right(ops@),
            ops@.len() == i + j,
            result@.len() == i + j,
            ordered ==> rows_ahead::<T, C>(result@, ops@, left@, right@, i as int, j as int),
        decreases left@.len() - i + right@.len() - j,
    {
        let ghost rest_left = left@.skip(i as int);
        let ghost rest_right = right@.skip(j as int);
        let ghost before = ops@;
        let ghost rows = result@;
        proof {
            if i < left@.len() {
                assert(rest_left[0] == left@[i as int]);
                assert(rest_left.drop_first() =~= left@.skip(i + 1));
            }
            if j < right@.len() {
                assert(rest_right[0] == right@[j as int]);
                assert(rest_right.drop_first() =~= right@.skip(j + 1));
            }
        }
        if i < left.len() && (j >= right.len() || C::not_after(left[i], right[j])) {
            proof {
                lemma_merged_push(left@, right@, before, true);
                assert(before.push(true) + merge_choices::<T, C>(
                    rest_left.drop_first(),
                    rest_right,
                    (limit - i - j - 1) as nat,
                ) =~= all);
                if ordered {
                    lemma_rows_ahead_take_left::<T, C>(
                        rows,
                        before,
                        left@,
                        right@,
                        i as int,
                        j as int,
                    );
                }
            }
            result.push(left[i]);
            ops.push(true);
            i += 1;
        } else {
            proof {
                lemma_merged_push(left@, right@, before, false);
                assert(before.push(false) + merge_choices::<T, C>(
                    rest_left,
                    rest_right.drop_first(),
                    (limit - i - j - 1) as nat,
                ) =~= all);
                if ordered {
                    lemma_rows_ahead_take_right::<T, C>(
                        rows,
                        before,
                        left@,
                        right@,
                        i as int,
                        j as int,
                    );
                }
            }
            result.push(right[j]);
            ops.push(false);
            j += 1;
        }
    }
    assert(ops@ =~= all);
    (result, ops)
}

/// Merges two key columns that are sorted in ascending order: the output
/// holds every key once, and the ops stream says for every input row whether
/// it opened a new output row or was folded into the last one.
pub fn merge_deduplicate<T: VecData>(left: &[T], right: &[T]) -> (merged: (Vec<T>, Vec<MergeOp>))
    ensures
        merged.1@ == dedup_ops::<T, CmpLessThan>(left@, right@, None),
        merged.0@ == drop_merged(left@, right@, merged.1@),
        merged.1@.len() == left@.len() + right@.len(),
        taken_left(merged.1@) == left@.len(),
        taken_right(merged.1@) == right@.len(),
        emitted(merged.1@) == merged.0@.len(),
        merged_count(merged.1@) == left@.len() + right@.len() - merged.0@.len(),
        merged.1@.len() > 0 ==> merged.1@[0] != MergeOp::MergeRight,
        strictly_sorted_by::<T, CmpLessThan>(left@) && strictly_sorted_by::<T, CmpLessThan>(right@)
            ==> strictly_sorted_by::<T, CmpLessThan>(merged.0@),
        sorted_by::<T, CmpLessThan>(left@) && sorted_by::<T, CmpLessThan>(right@) ==> sorted_by::<
            T,
            CmpLessThan,
        >(merged.0@) && sorted_by::<T, CmpLessThan>(consumed(left@, right@, merged.1@)),
        covers(merged.0@, left@, right@, left@.len() as int, right@.len() as int),
        folds_match(left@, right@, merged.1@),
        strictly_sorted_by::<T, CmpLessThan>(left@) && strictly_sorted_by::<T, CmpLessThan>(right@)
            ==> merged_count(merged.1@) == shared(left@, right@),
{
    merge_deduplicate::merge_deduplicate::<T, CmpLessThan>(left, right)
}

/// Number of rows at the front of `column` that equal `elem`.
pub open spec fn run_len<T: VecData>(column: Seq<T>, elem: T) -> nat
    decreases column.len(),
{
    if column.len() > 0 && equiv(elem, column[0]) {
        1 + run_len(column.drop_first(), elem)
    } else {
        0
    }
}

/// The smaller of the first keys of `left` and `right`; the left one if they are equal.
pub open spec fn least_head<T: VecData>(left: Seq<T>, right: Seq<T>) -> T {
    if left.len() > 0 && (right.len() == 0 || left[0].le(right[0])) {
        left[0]
    } else {
        right[0]
    }
}

/// The runs of equal keys across two key columns sorted in ascending order:
/// each group counts the rows at the front of `left` and of `right` that hold
/// the least key still present. No group is started once `room` rows are covered.
pub open spec fn partitioned<T: VecData>(left: Seq<T>, right: Seq<T>, room: int) -> Seq<Premerge>
    decreases left.len() + right.len(),
{
    if room <= 0 || (left.len() == 0 && right.len() == 0) {
        Seq::empty()
    } else {
        let elem = least_head(left, right);
        let l = run_len(left, elem);
        let r = run_len(right, elem);
        if 0 < l + r && l <= left.len() && r <= right.len() {
            seq![Premerge { left: l as u32, right: r as u32 }] + partitioned(
                left.skip(l as int),
                right.skip(r as int),
                room - l - r,
            )
        } else {
            Seq::empty()
        }
    }
}

/// Number of left rows that the groups cover.
pub open spec fn rows_left(partitioning: Seq<Premerge>) -> nat
    decreases partitioning.len(),
{
    if partitioning.len() == 0 {
        0
    } else {
        partitioning[0].left as nat + rows_left(partitioning.drop_first())
    }
}

/// Number of right rows that the groups cover.
pub open spec fn rows_right(partitioning: Seq<Premerge>) -> nat
    decreases partitioning.len(),
{
    if partitioning.len() == 0 {
        0
    } else {
        partitioning[0].right as nat + rows_right(partitioning.drop_first())
    }
}

/// The groups of `partitioning`, each split into the runs of equal keys of
/// the next key column within it.
pub open spec fn subpartitioned<T: VecData>(
    partitioning: Seq<Premerge>,
    left: Seq<T>,
    right: Seq<T>,
) -> Seq<Premerge>
    decreases partitioning.len(),
{
    if partitioning.len() == 0 {
        Seq::empty()
    } else {
        let group = partitioning[0];
        partitioned(
            left.take(group.left as int),
            right.take(group.right as int),
            group.left + group.right,
        ) + subpartitioned(
            partitioning.drop_first(),
            left.skip(group.left as int),
            right.skip(group.right as int),
        )
    }
}

/// The ops stream of a deduplicating merge within one group, where `last` is
/// the key that was emitted last in the group: a right row with that key is
/// folded; else the left row is taken if it is not greater than the right
/// row; else the right row is taken.
pub open spec fn group_dedup_ops<T: VecData>(left: Seq<T>, right: Seq<T>, last: Option<T>) -> Seq<
    MergeOp,
>
    decreases left.len() + right.len(),
{
    if right.len() > 0 && last is Some && equiv(last->0, right[0]) {
        seq![MergeOp::MergeRight] + group_dedup_ops(left, right.drop_first(), last)
    } else if left.len() > 0 && (right.len() == 0 || left[0].le(right[0])) {
        seq![MergeOp::TakeLeft] + group_dedup_ops(left.drop_first(), right, Some(left[0]))
    } else if right.len() > 0 {
        seq![MergeOp::TakeRight] + group_dedup_ops(left, right.drop_first(), Some(right[0]))
    } else {
        Seq::empty()
    }
}

/// The ops stream of a deduplicating merge that runs within every group of
/// `partitioning` and never folds across the border of two groups.
pub open spec fn partitioned_dedup_ops<T: VecData>(
    partitioning: Seq<Premerge>,
    left: Seq<T>,
    right: Seq<T>,
) -> Seq<MergeOp>
    decreases partitioning.len(),
{
    if partitioning.len() == 0 {
        Seq::empty()
    } else {
        let group = partitioning[0];
        group_dedup_ops(left.take(group.left as int), right.take(group.right as int), None)
            + partitioned_dedup_ops(
            partitioning.drop_first(),
            left.skip(group.left as int),
            right.skip(group.right as int),
        )
    }
}

/// The run of `elem` at the front of `column`, measured from a later
/// position on, is what is left of the run from the start.
proof fn lemma_run_step<T: VecData>(column: Seq<T>, elem: T)
    requires
        column.len() > 0,
        equiv(elem, column[0]),
    ensures
        run_len(column, elem) == 1 + run_len(column.drop_first(), elem),
        run_len(column, elem) <= column.len(),
    decreases column.len(),
{
    lemma_run_bound(column.drop_first(), elem);
}

/// A run is no longer than the column.
proof fn lemma_run_bound<T: VecData>(column: Seq<T>, elem: T)
    ensures
        run_len(column, elem) <= column.len(),
    decreases column.len(),
{
    if column.len() > 0 && equiv(elem, column[0]) {
        lemma_run_bound(column.drop_first(), elem);
    }
}

/// Skips the rows of `column` from position `start` on that equal `elem`,
/// and returns the position of the first row that does not.
fn skip_run<T: VecData>(column: &[T], start: usize, elem: T) -> (end: usize)
    requires
        start <= column@.len(),
    ensures
        start <= end <= column@.len(),
        end - start == run_len(column@.skip(start as int), elem),
{
    let mut i: usize = start;
    while i < column.len() && elem.same(column[i])
        invariant
            start <= i <= column@.len(),
            run_len(column@.skip(start as int), elem) == i - start + run_len(
                column@.skip(i as int),
                elem,
            ),
        decreases column@.len() - i,
    {
        proof {
            assert(column@.skip(i as int)[0] == column@[i as int]);
            assert(column@.skip(i as int).drop_first() =~= column@.skip(i + 1));
        }
        i += 1;
    }
    proof {
        if i < column@.len() {
            assert(column@.skip(i as int)[0] == column@[i as int]);
        }
    }
    i
}

/// Appends to `result` the runs of equal keys across `left` and `right`.
fn partition_into<T: VecData>(result: &mut Vec<Premerge>, left: &[T], right: &[T], limit: usize)
    requires
        left@.len() <= u32::MAX,
        right@.len() <= u32::MAX,
        left@.len() + right@.len() <= usize::MAX,
    ensures
        final(result)@ == old(result)@ + partitioned(left@, right@, limit as int),
{
    let ghost all = partitioned(left@, right@, limit as int);
    let mut i: usize = 0;
    let mut j: usize = 0;
    assert(left@.skip(0) =~= left@ && right@.skip(0) =~= right@);
    assert(result@ + all =~= old(result)@ + all);
    while (i < left.len() || j < right.len()) && i + j < limit
        invariant
            i <= left@.len() <= u32::MAX,
            j <= right@.len() <= u32::MAX,
            left@.len() + right@.len() <= usize::MAX,
            result@ + partitioned(left@.skip(i as int), right@.skip(j as int), limit - i - j)
                == old(result)@ + all,
        decreases left@.len() - i + right@.len() - j,
    {
        let ghost rest_left = left@.skip(i as int);
        let ghost rest_right = right@.skip(j as int);
        let ghost groups = result@;
        let elem = if i < left.len() && (j >= right.len() || left[i].less_or_equal(right[j])) {
            left[i]
        } else {
            right[j]
        };
        proof {
            if i < left@.len() {
                assert(rest_left[0] == left@[i as int]);
            }
            if j < right@.len() {
                assert(rest_right[0] == right@[j as int]);
            }
            assert(elem == least_head(rest_left, rest_right));
            T::le_total(elem, elem);
            if i < left@.len() && elem == left@[i as int] {
                lemma_run_step(rest_left, elem);
            } else {
                lemma_run_step(rest_right, elem);
            }
        }
        let i_end = skip_run(left, i, elem);
        let j_end = skip_run(right, j, elem);
        let group = Premerge { left: (i_end - i) as u32, right: (j_end - j) as u32 };
        proof {
            assert(rest_left.skip(i_end - i) =~= left@.skip(i_end as int));
            assert(rest_right.skip(j_end - j) =~= right@.skip(j_end as int));
            assert(groups.push(group) + partitioned(
                left@.skip(i_end as int),
                right@.skip(j_end as int),
                limit - i_end - j_end,
            ) =~= groups + partitioned(rest_left, rest_right, limit - i - j));
        }
        result.push(group);
        i = i_end;
        j = j_end;
    }
    assert(partitioned(left@.skip(i as int), right@.skip(j as int), limit - i - j)
        =~= Seq::<Premerge>::empty());
    assert(result@ =~= old(result)@ + all);
}

/// Groups the rows of two key columns, both sorted in ascending order, into
/// runs of equal keys. Stops once `limit` rows are covered.
pub fn partition<T: VecData>(left: &[T], right: &[T], limit: usize) -> (result: Vec<Premerge>)
    requires
        left@.len() <= u32::MAX,
        right@.len() <= u32::MAX,
        left@.len() + right@.len() <= usize::MAX,
    ensures
        result@ == partitioned(left@, right@, limit as int),
{
    let mut result: Vec<Premerge> = Vec::new();
    partition_into(&mut result, left, right, limit);
    assert(result@ =~= partitioned(left@, right@, limit as int));
    result
}

/// Refines a grouping by one more key column: every group is split into the
/// runs of equal keys of `left` and `right` within it.
pub fn subpartition<T: VecData>(partitioning: &[Premerge], left: &[T], right: &[T]) -> (result: Vec<
    Premerge,
>)
    requires
        rows_left(partitioning@) <= left@.len(),
        rows_right(partitioning@) <= right@.len(),
        left@.len() + right@.len() <= usize::MAX,
    ensures
        result@ == subpartitioned(partitioning@, left@, right@),
{
    let mut result: Vec<Premerge> = Vec::new();
    let ghost all = subpartitioned(partitioning@, left@, right@);
    let mut i: usize = 0;
    let mut j: usize = 0;
    let mut g: usize = 0;
    assert(left@.skip(0) =~= left@ && right@.skip(0) =~= right@);
    assert(partitioning@.skip(0) =~= partitioning@);
    assert(result@ + all =~= all);
    while g < partitioning.len()
        invariant
            g <= partitioning@.len(),
            i + rows_left(partitioning@.skip(g as int)) <= left@.len(),
            j + rows_right(partitioning@.skip(g as int)) <= right@.len(),
            left@.len() + right@.len() <= usize::MAX,
            result@ + subpartitioned(
                partitioning@.skip(g as int),
                left@.skip(i as int),
                right@.skip(j as int),
            ) == all,
        decreases partitioning@.len() - g,
    {
        let group = partitioning[g];
        let ghost groups = result@;
        let ghost rest = partitioning@.skip(g as int);
        assert(rest[0] == group);
        assert(rest.drop_first() =~= partitioning@.skip(g + 1));
        let i_max = i + group.left as usize;
        let j_max = j + group.right as usize;
        let left_rows = slice_subrange(left, i, i_max);
        let right_rows = slice_subrange(right, j, j_max);
        proof {
            assert(left_rows@ =~= left@.skip(i as int).take(group.left as int));
            assert(right_rows@ =~= right@.skip(j as int).take(group.right as int));
            assert(left@.skip(i as int).skip(group.left as int) =~= left@.skip(i_max as int));
            assert(right@.skip(j as int).skip(group.right as int) =~= right@.skip(j_max as int));
        }
        partition_into(&mut result, left_rows, right_rows, (i_max - i) + (j_max - j));
        assert(result@ + subpartitioned(
            partitioning@.skip(g + 1),
            left@.skip(i_max as int),
            right@.skip(j_max as int),
        ) =~= groups + subpartitioned(rest, left@.skip(i as int), right@.skip(j as int)));
        i = i_max;
        j = j_max;
        g += 1;
    }
    assert(result@ =~= all);
    result
}

/// Merges the last key column of two partitions within the groups that the
/// leading key columns define: rows are folded only within a group.
pub fn merge_deduplicate_partitioned<T: VecData>(
    partitioning: &[Premerge],
    left: &[T],
    right: &[T],
) -> (merged: (Vec<T>, Vec<MergeOp>))
    requires
        rows_left(partitioning@) <= left@.len(),
        rows_right(partitioning@) <= right@.len(),
        left@.len() + right@.len() <= usize::MAX,
    ensures
        merged.1@ == partitioned_dedup_ops(partitioning@, left@, right@),
        merged.0@ == drop_merged(left@, right@, merged.1@),
        taken_left(merged.1@) == rows_left(partitioning@),
        taken_right(merged.1@) == rows_right(partitioning@),
        emitted(merged.1@) == merged.0@.len(),
        merged.1@.len() > 0 ==> merged.1@[0] != MergeOp::MergeRight,
{
    let mut result: Vec<T> = Vec::new();
    let mut ops: Vec<MergeOp> = Vec::new();
    let ghost all = partitioned_dedup_ops(partitioning@, left@, right@);

    let mut i: usize = 0;
    let mut j: usize = 0;
    let mut g: usize = 0;
    assert(left@.skip(0) =~= left@ && right@.skip(0) =~= right@);
    assert(partitioning@.skip(0) =~= partitioning@);
    assert(ops@ + all =~= all);
    while g < partitioning.len()
        invariant
            g <= partitioning@.len(),
            i + rows_left(partitioning@.skip(g as int)) == rows_left(partitioning@),
            j + rows_right(partitioning@.skip(g as int)) == rows_right(partitioning@),
            rows_left(partitioning@) <= left@.len(),
            rows_right(partitioning@) <= right@.len(),
            left@.len() + right@.len() <= usize::MAX,
            ops@ + partitioned_dedup_ops(
                partitioning@.skip(g as int),
                left@.skip(i as int),
                right@.skip(j as int),
            ) == all,
            result@ == drop_merged(left@, right@, ops@),
            i == taken_left(ops@),
            j == taken_right(ops@),
            result@.len() == emitted(ops@),
            ops@.len() > 0 ==> ops@[0] != MergeOp::MergeRight,
        decreases partitioning@.len() - g,
    {
        let group = partitioning[g];
        let ghost rest = partitioning@.skip(g as int);
        assert(rest[0] == group);
        assert(rest.drop_first() =~= partitioning@.skip(g + 1));
        let ghost group_start = ops@;
        let ghost later = partitioned_dedup_ops(
            partitioning@.skip(g + 1),
            left@.skip(i + group.left),
            right@.skip(j + group.right),
        );
        let mut last: Option<T> = None;
        let i_max = i + group.left as usize;
        let j_max = j + group.right as usize;
        proof {
            assert(left@.subrange(i as int, i_max as int) =~= left@.skip(i as int).take(
                group.left as int,
            ));
            assert(right@.subrange(j as int, j_max as int) =~= right@.skip(j as int).take(
                group.right as int,
            ));
            assert(left@.skip(i as int).skip(group.left as int) =~= left@.skip(i_max as int));
            assert(right@.skip(j as int).skip(group.right as int) =~= right@.skip(j_max as int));
        }
        while i < i_max || j < j_max
            invariant
                i <= i_max <= left@.len(),
                j <= j_max <= right@.len(),
                left@.len() + right@.len() <= usize::MAX,
                ops@ + group_dedup_ops(
                    left@.subrange(i as int, i_max as int),
                    right@.subrange(j as int, j_max as int),
                    last,
                ) + later == all,
                result@ == drop_merged(left@, right@, ops@),
                i == taken_left(ops@),
                j == taken_right(ops@),
                result@.len() == emitted(ops@),
                ops@.len() > 0 ==> ops@[0] != MergeOp::MergeRight,
                last is None ==> ops@ == group_start,
                ops@.len() > 0 && last is None ==> ops@[0] != MergeOp::MergeRight,
                last is Some ==> ops@.len() > 0,
            decreases i_max - i + j_max - j,
        {
            let ghost rest_left = left@.subrange(i as int, i_max as int);
            let ghost rest_right = right@.subrange(j as int, j_max as int);
            let ghost before = ops@;
            proof {
                if i < i_max {
                    assert(rest_left[0] == left@[i as int]);
                    assert(rest_left.drop_first() =~= left@.subrange(i + 1, i_max as int));
                }
                if j < j_max {
                    assert(rest_right[0] == right@[j as int]);
                    assert(rest_right.drop_first() =~= right@.subrange(j + 1, j_max as int));
                }
            }
            let fold = j < j_max && match last {
                Some(key) => key.same(right[j]),
                None => false,
            };
            if fold {
                proof {
                    lemma_ops_push(before, MergeOp::MergeRight);
                    lemma_drop_merged_push(left@, right@, before, MergeOp::MergeRight);
                    assert(before.push(MergeOp::MergeRight) + group_dedup_ops(
                        rest_left,
                        rest_right.drop_first(),
                        last,
                    ) + later =~= all);
                }
                ops.push(MergeOp::MergeRight);
                j += 1;
            } else if i < i_max && (j >= j_max || left[i].less_or_equal(right[j])) {
                proof {
                    lemma_ops_push(before, MergeOp::TakeLeft);
                    lemma_drop_merged_push(left@, right@, before, MergeOp::TakeLeft);
                    assert(before.push(MergeOp::TakeLeft) + group_dedup_ops(
                        rest_left.drop_first(),
                        rest_right,
                        Some(left@[i as int]),
                    ) + later =~= all);
                }
                result.push(left[i]);
                ops.push(MergeOp::TakeLeft);
                last = Some(left[i]);
                i += 1;
            } else {
                proof {
                    lemma_ops_push(before, MergeOp::TakeRight);
                    lemma_drop_merged_push(left@, right@, before, MergeOp::TakeRight);
                    assert(before.push(MergeOp::TakeRight) + group_dedup_ops(
                        rest_left,
                        rest_right.drop_first(),
                        Some(right@[j as int]),
                    ) + later =~= all);
                }
                result.push(right[j]);
                ops.push(MergeOp::TakeRight);
                last = Some(right[j]);
                j += 1;
            }
        }
        proof {
            assert(group_dedup_ops(
                left@.subrange(i as int, i_max as int),
                right@.subrange(j as int, j_max as int),
                last,
            ) =~= Seq::<MergeOp>::empty());
            assert(ops@ + later =~= all);
        }
        g += 1;
    }
    assert(ops@ =~= all);
    (result, ops)
}

/// The groups of two lists of groups cover the rows of both together.
pub proof fn lemma_rows_concat(a: Seq<Premerge>, b: Seq<Premerge>)
    ensures
        rows_left(a + b) == rows_left(a) + rows_left(b),
        rows_right(a + b) == rows_right(a) + rows_right(b),
    decreases a.len(),
{
    if a.len() == 0 {
        assert(a + b =~= b);
    } else {
        lemma_rows_concat(a.drop_first(), b);
        assert((a + b).drop_first() =~= a.drop_first() + b);
    }
}

/// The runs of equal keys cover no more rows than the columns have.
pub proof fn lemma_partitioned_rows<T: VecData>(left: Seq<T>, right: Seq<T>, room: int)
    requires
        left.len() <= u32::MAX,
        right.len() <= u32::MAX,
    ensures
        rows_left(partitioned(left, right, room)) <= left.len(),
        rows_right(partitioned(left, right, room)) <= right.len(),
    decreases left.len() + right.len(),
{
    if room > 0 && (left.len() > 0 || right.len() > 0) {
        let elem = least_head(left, right);
        let l = run_len(left, elem);
        let r = run_len(right, elem);
        if 0 < l + r && l <= left.len() && r <= right.len() {
            let rest = partitioned(left.skip(l as int), right.skip(r as int), room - l - r);
            lemma_partitioned_rows(left.skip(l as int), right.skip(r as int), room - l - r);
            let all = partitioned(left, right, room);
            assert(all.drop_first() =~= rest);
        }
    }
}

/// Splitting groups covers no more rows than the groups did.
pub proof fn lemma_subpartitioned_rows<T: VecData>(
    partitioning: Seq<Premerge>,
    left: Seq<T>,
    right: Seq<T>,
)
    requires
        rows_left(partitioning) <= left.len(),
        rows_right(partitioning) <= right.len(),
    ensures
        rows_left(subpartitioned(partitioning, left, right)) <= rows_left(partitioning),
        rows_right(subpartitioned(partitioning, left, right)) <= rows_right(partitioning),
    decreases partitioning.len(),
{
    if partitioning.len() > 0 {
        let group = partitioning[0];
        let here = partitioned(
            left.take(group.left as int),
            right.take(group.right as int),
            group.left + group.right,
        );
        let later = subpartitioned(
            partitioning.drop_first(),
            left.skip(group.left as int),
            right.skip(group.right as int),
        );
        lemma_partitioned_rows(
            left.take(group.left as int),
            right.take(group.right as int),
            group.left + group.right,
        );
        lemma_subpartitioned_rows(
            partitioning.drop_first(),
            left.skip(group.left as int),
            right.skip(group.right as int),
        );
        lemma_rows_concat(here, later);
    }
}

/// The results of one partition for a query, or of several partitions
/// combined: the key columns of a grouping with the aggregate states per group,
/// or plain rows, sorted by one of the columns or unsorted.
#[derive(Debug)]
pub struct BatchResult<'a> {
    pub group_by: Option<Vec<TypedVec<'a>>>,
    pub sort_by: Option<usize>,
    pub desc: bool,
    pub select: Vec<TypedVec<'a>>,
    pub aggregators: Vec<Aggregator>,
    pub level: u32,
    pub batch_count: usize,
}

/// What a `BatchResult` holds.
pub struct BatchView<'a> {
    pub group_by: Option<Seq<ColumnView<'a>>>,
    pub sort_by: Option<usize>,
    pub desc: bool,
    pub select: Seq<ColumnView<'a>>,
    pub aggregators: Seq<Aggregator>,
    pub level: u32,
    pub batch_count: usize,
}

/// What a list of columns holds.
pub open spec fn column_views<'a>(columns: Seq<TypedVec<'a>>) -> Seq<ColumnView<'a>> {
    columns.map_values(|c: TypedVec<'a>| c@)
}

impl<'a> View for BatchResult<'a> {
    type V = BatchView<'a>;

    open spec fn view(&self) -> BatchView<'a> {
        BatchView {
            group_by: match self.group_by {
                Some(g) => Some(column_views(g@)),
                None => None,
            },
            sort_by: self.sort_by,
            desc: self.desc,
            select: column_views(self.select@),
            aggregators: self.aggregators@,
            level: self.level,
            batch_count: self.batch_count,
        }
    }
}

impl<'a> BatchView<'a> {
    /// The key columns followed by the selected columns.
    pub open spec fn columns(self) -> Seq<ColumnView<'a>> {
        match self.group_by {
            Some(g) => g + self.select,
            None => self.select,
        }
    }

    /// All columns have the same number of rows.
    pub open spec fn uniform(self) -> bool {
        forall|i: int|
            0 <= i < self.columns().len() ==> (#[trigger] self.columns()[i]).len()
                == self.columns()[0].len()
    }

    /// Number of rows: that of the first key column, or of the first selected
    /// column where there are no keys.
    pub open spec fn len(self) -> nat {
        match self.group_by {
            Some(g) => g[0].len(),
            None => if self.select.len() > 0 {
                self.select[0].len()
            } else {
                0
            },
        }
    }
}

/// The text `info` followed by the kind, the position and the length of a
/// column.
pub open spec fn length_text(info: Seq<char>, kind: Seq<char>, index: usize, len: usize) -> Seq<
    char,
> {
    info + ":"@ + kind + "["@ + decimal(index as nat) + "].len = "@ + decimal(len as nat)
}

/// Appends the kind, the position and the length of a column to `info`.
fn describe_length(info: String, kind: &str, index: usize, len: usize) -> (text: String)
    ensures
        text@ == length_text(info@, kind@, index, len),
{
    let mut text = info;
    text.append(":");
    text.append(kind);
    text.append("[");
    append_decimal(&mut text, index);
    text.append("].len = ");
    append_decimal(&mut text, len);
    text
}

/// The text `info` followed by the lengths of `columns`, which are of the
/// kind `kind`, one after the other.
pub open spec fn lengths_text<'a>(info: Seq<char>, kind: Seq<char>, columns: Seq<ColumnView<'a>>)
    -> Seq<char>
    decreases columns.len(),
{
    if columns.len() == 0 {
        info
    } else {
        length_text(
            lengths_text(info, kind, columns.drop_last()),
            kind,
            (columns.len() - 1) as usize,
            columns.last().len() as usize,
        )
    }
}

/// The name of an element type.
pub open spec fn encoding_name(t: EncodingType) -> Seq<char> {
    match t {
        EncodingType::Null => "Null"@,
        EncodingType::U8 => "U8"@,
        EncodingType::U32 => "U32"@,
        EncodingType::I64 => "I64"@,
        EncodingType::Str => "Str"@,
        EncodingType::Val => "Val"@,
    }
}

/// The description of an operation that does not support two column types:
/// the name of the operation, the word `types`, and the names of the two
/// types.
pub open spec fn unsupported_text(operation: Seq<char>, left: EncodingType, right: EncodingType)
    -> Seq<char> {
    operation + " types "@ + encoding_name(left) + ", "@ + encoding_name(right)
}

/// Gives the name of an element type.
fn name_of(t: EncodingType) -> (name: &'static str)
    ensures
        name@ == encoding_name(t),
{
    match t {
        EncodingType::Null => "Null",
        EncodingType::U8 => "U8",
        EncodingType::U32 => "U32",
        EncodingType::I64 => "I64",
        EncodingType::Str => "Str",
        EncodingType::Val => "Val",
    }
}

/// Describes an operation that does not support two column types.
fn describe_unsupported(operation: &str, left: EncodingType, right: EncodingType) -> (text: String)
    ensures
        text@ == unsupported_text(operation@, left, right),
{
    let mut text = operation.to_owned();
    text.append(" types ");
    text.append(name_of(left));
    text.append(", ");
    text.append(name_of(right));
    text
}

/// The failure for an operation that does not support two column types.
fn not_implemented(operation: &str, left: EncodingType, right: EncodingType) -> (error: QueryError)
    ensures
        error.kind() == ErrorKind::NotImplemented,
        error.text() == unsupported_text(operation@, left, right),
{
    QueryError::NotImplemented(describe_unsupported(operation, left, right))
}

/// The failure for an invariant that does not hold, described by `text`.
fn fatal(text: &str) -> (error: QueryError)
    ensures
        error.kind() == ErrorKind::Fatal,
        error.text() == text@,
{
    QueryError::FatalError(text.to_owned())
}

impl<'a> BatchResult<'a> {
    /// Number of rows.
    pub fn len(&self) -> (n: usize)
        requires
            self@.group_by is Some ==> self@.group_by->0.len() > 0,
        ensures
            n == self@.len(),
    {
        match &self.group_by {
            Some(g) => g[0].len(),
            None => if self.select.len() > 0 {
                self.select[0].len()
            } else {
                0
            },
        }
    }

    /// Checks that all columns have the same number of rows. The failure
    /// lists the length of every column, the key columns first.
    pub fn validate(&self) -> (res: Result<(), QueryError>)
        ensures
            res is Ok <==> self@.uniform(),
            res is Err ==> res->Err_0.kind() == ErrorKind::Fatal,
            res is Err ==> res->Err_0.text() == lengths_text(
                lengths_text(
                    Seq::empty(),
                    "group_by"@,
                    match self@.group_by {
                        Some(g) => g,
                        None => Seq::empty(),
                    },
                ),
                "select"@,
                self@.select,
            ),
    {
        let mut first: Option<usize> = None;
        let mut all_lengths_same = true;
        let mut info_str = String::new();
        let ghost keys: Seq<ColumnView<'a>> = match self@.group_by {
            Some(g) => g,
            None => Seq::empty(),
        };
        let ghost all = self@.columns();
        assert(all =~= keys + self@.select);
        assert(keys.take(0) =~= Seq::<ColumnView<'a>>::empty());
        assert(info_str@ =~= Seq::<char>::empty());
        if let Some(group_bys) = &self.group_by {
            let mut i: usize = 0;
            while i < group_bys.len()
                invariant
                    i <= group_bys@.len(),
                    info_str@ == lengths_text(Seq::empty(), "group_by"@, keys.take(i as int)),
                    keys == column_views(group_bys@),
                    all == keys + self@.select,
                    first is None ==> i == 0,
                    first is Some ==> all.len() > 0 && first->0 == all[0].len(),
                    all_lengths_same <==> forall|k: int|
                        0 <= k < i ==> (#[trigger] all[k]).len() == all[0].len(),
                decreases group_bys@.len() - i,
            {
                let len = group_bys[i].len();
                assert(all[i as int] == group_bys@[i as int]@);
                match first {
                    Some(expected) => {
                        if len != expected {
                            all_lengths_same = false;
                        }
                    },
                    None => {
                        first = Some(len);
                    },
                }
                proof {
                    assert(keys.take(i + 1).drop_last() =~= keys.take(i as int));
                    assert(keys.take(i + 1).last() == group_bys@[i as int]@);
                }
                info_str = describe_length(info_str, "group_by", i, len);
                i += 1;
            }
            assert(keys.take(i as int) =~= keys);
        }
        let ghost keys_text = lengths_text(Seq::empty(), "group_by"@, keys);
        let mut i: usize = 0;
        assert(self@.select.take(0) =~= Seq::<ColumnView<'a>>::empty());
        while i < self.select.len()
            invariant
                i <= self.select@.len(),
                keys_text == lengths_text(Seq::empty(), "group_by"@, keys),
                info_str@ == lengths_text(keys_text, "select"@, self@.select.take(i as int)),
                all == keys + self@.select,
                self@.select == column_views(self.select@),
                first is None ==> i == 0 && keys.len() == 0,
                first is Some ==> all.len() > 0 && first->0 == all[0].len(),
                all_lengths_same <==> forall|k: int|
                    0 <= k < keys.len() + i ==> (#[trigger] all[k]).len() == all[0].len(),
            decreases self.select@.len() - i,
        {
            let len = self.select[i].len();
            assert(all[keys.len() + i] == self.select@[i as int]@);
            match first {
                Some(expected) => {
                    if len != expected {
                        all_lengths_same = false;
                    }
                },
                None => {
                    first = Some(len);
                },
            }
            proof {
                assert(self@.select.take(i + 1).drop_last() =~= self@.select.take(i as int));
                assert(self@.select.take(i + 1).last() == self.select@[i as int]@);
            }
            info_str = describe_length(info_str, "select", i, len);
            i += 1;
        }
        assert(self@.select.take(i as int) =~= self@.select);
        if all_lengths_same {
            Ok(())
        } else {
            Err(QueryError::FatalError(info_str))
        }
    }
}

/// The ops stream of a deduplicating merge of two key columns in ascending
/// order, `None` for types that it does not support.
pub open spec fn key_ops<'a>(left: ColumnView<'a>, right: ColumnView<'a>) -> Option<Seq<MergeOp>> {
    match (left, right) {
        (ColumnView::Str(a), ColumnView::Str(b)) => Some(
            dedup_ops::<&'a str, CmpLessThan>(a, b, None),
        ),
        (ColumnView::U8(a), ColumnView::U8(b)) => Some(dedup_ops::<u8, CmpLessThan>(a, b, None)),
        (ColumnView::I64(a), ColumnView::I64(b)) => Some(dedup_ops::<i64, CmpLessThan>(a, b, None)),
        _ => None,
    }
}

/// The key column that replaying `ops` builds where there is one key column.
pub open spec fn key_column<'a>(
    left: ColumnView<'a>,
    right: ColumnView<'a>,
    ops: Seq<MergeOp>,
) -> ColumnView<'a> {
    match (left, right) {
        (ColumnView::Str(a), ColumnView::Str(b)) => ColumnView::Str(drop_merged(a, b, ops)),
        (ColumnView::U8(a), ColumnView::U8(b)) => ColumnView::U8(drop_merged(a, b, ops)),
        (ColumnView::I64(a), ColumnView::I64(b)) => ColumnView::I64(drop_merged(a, b, ops)),
        _ => left,
    }
}

/// The runs of equal keys across two key columns, `None` for types that
/// partitioning does not support.
pub open spec fn column_partition<'a>(left: ColumnView<'a>, right: ColumnView<'a>, room: int)
    -> Option<
    Seq<Premerge>,
> {
    match (left, right) {
        (ColumnView::Str(a), ColumnView::Str(b)) => Some(partitioned(a, b, room)),
        (ColumnView::I64(a), ColumnView::I64(b)) => Some(partitioned(a, b, room)),
        _ => None,
    }
}

/// Groups split by one more pair of key columns, `None` for types that
/// partitioning does not support.
pub open spec fn column_subpartition<'a>(
    partitioning: Seq<Premerge>,
    left: ColumnView<'a>,
    right: ColumnView<'a>,
) -> Option<Seq<Premerge>> {
    match (left, right) {
        (ColumnView::Str(a), ColumnView::Str(b)) => Some(subpartitioned(partitioning, a, b)),
        (ColumnView::I64(a), ColumnView::I64(b)) => Some(subpartitioned(partitioning, a, b)),
        _ => None,
    }
}

/// The ops stream of a deduplicating merge of the last pair of key columns
/// within groups, `None` for types that it does not support.
pub open spec fn column_group_ops<'a>(
    partitioning: Seq<Premerge>,
    left: ColumnView<'a>,
    right: ColumnView<'a>,
) -> Option<Seq<MergeOp>> {
    match (left, right) {
        (ColumnView::Str(a), ColumnView::Str(b)) => Some(partitioned_dedup_ops(partitioning, a, b)),
        (ColumnView::I64(a), ColumnView::I64(b)) => Some(partitioned_dedup_ops(partitioning, a, b)),
        _ => None,
    }
}

/// The key column that replaying `ops` builds where there are several key
/// columns, `None` for types that it does not support.
pub open spec fn column_drop_merged<'a>(
    left: ColumnView<'a>,
    right: ColumnView<'a>,
    ops: Seq<MergeOp>,
) -> Option<ColumnView<'a>> {
    match (left, right) {
        (ColumnView::Str(a), ColumnView::Str(b)) => Some(ColumnView::Str(drop_merged(a, b, ops))),
        (ColumnView::I64(a), ColumnView::I64(b)) => Some(ColumnView::I64(drop_merged(a, b, ops))),
        _ => None,
    }
}

/// The runs of rows that are equal in each of the first `n` pairs of key
/// columns: the runs of the first pair, split by every further pair in turn.
pub open spec fn refined<'a>(left: Seq<ColumnView<'a>>, right: Seq<ColumnView<'a>>, n: nat) -> Option<
    Seq<Premerge>,
>
    decreases n,
{
    if n <= 1 {
        column_partition(left[0], right[0], usize::MAX as int)
    } else {
        match refined(left, right, (n - 1) as nat) {
            Some(partitioning) => column_subpartition(partitioning, left[n - 1], right[n - 1]),
            None => None,
        }
    }
}

/// The ops stream that merges the key columns of two groupings: the
/// deduplicating merge of the one pair of key columns, or that of the last
/// pair within the runs of rows that are equal in all pairs before it.
/// `None` where a step does not support the types of its columns.
pub open spec fn grouping_ops<'a>(left: Seq<ColumnView<'a>>, right: Seq<ColumnView<'a>>) -> Option<
    Seq<MergeOp>,
> {
    let last = left.len() - 1;
    if left.len() == 1 {
        key_ops(left[0], right[0])
    } else {
        match refined(left, right, last as nat) {
            Some(partitioning) => match column_group_ops(partitioning, left[last], right[last]) {
                Some(ops) => if forall|i: int|
                    0 <= i < left.len() ==> column_drop_merged(
                        #[trigger] left[i],
                        right[i],
                        ops,
                    ) is Some {
                    Some(ops)
                } else {
                    None
                },
                None => None,
            },
            None => None,
        }
    }
}

/// The key columns that replaying `ops` builds.
pub open spec fn merged_keys<'a>(
    left: Seq<ColumnView<'a>>,
    right: Seq<ColumnView<'a>>,
    ops: Seq<MergeOp>,
) -> Seq<ColumnView<'a>> {
    if left.len() == 1 {
        seq![key_column(left[0], right[0], ops)]
    } else {
        Seq::new(left.len(), |i: int| column_drop_merged(left[i], right[i], ops)->0)
    }
}

/// The choices of a merge of two sort columns, descending if `desc`, that
/// stops after `limit` rows. `None` for types that it does not support.
pub open spec fn sort_choices<'a>(
    left: ColumnView<'a>,
    right: ColumnView<'a>,
    desc: bool,
    limit: nat,
) -> Option<Seq<bool>> {
    match (left, right) {
        (ColumnView::Str(a), ColumnView::Str(b)) => Some(
            if desc {
                merge_choices::<&'a str, CmpGreaterThan>(a, b, limit)
            } else {
                merge_choices::<&'a str, CmpLessThan>(a, b, limit)
            },
        ),
        (ColumnView::I64(a), ColumnView::I64(b)) => Some(
            if desc {
                merge_choices::<i64, CmpGreaterThan>(a, b, limit)
            } else {
                merge_choices::<i64, CmpLessThan>(a, b, limit)
            },
        ),
        _ => None,
    }
}

/// The column that replaying the choices `ops` builds, `None` for types
/// that it does not support.
pub open spec fn column_merged<'a>(left: ColumnView<'a>, right: ColumnView<'a>,
    ops: Seq<bool>) -> Option<
    ColumnView<'a>,
> {
    match (left, right) {
        (ColumnView::Str(a), ColumnView::Str(b)) => Some(ColumnView::Str(merged(a, b, ops))),
        (ColumnView::I64(a), ColumnView::I64(b)) => Some(ColumnView::I64(merged(a, b, ops))),
        _ => None,
    }
}

/// One more than the greater of two levels, as far as a `u32` can hold it.
pub open spec fn next_level(left: u32, right: u32) -> u32 {
    let level = if left >= right {
        left
    } else {
        right
    };
    if level == u32::MAX {
        level
    } else {
        (level + 1) as u32
    }
}

/// The sum of two batch counts, as far as a `usize` can hold it.
pub open spec fn batch_total(left: usize, right: usize) -> usize {
    if left + right > usize::MAX {
        usize::MAX
    } else {
        (left + right) as usize
    }
}

/// Two groupings can be merged: they have the same number of key columns, at
/// least one; within each all columns have the same number of rows; there is
/// a selected column for every aggregator; and the rows can be counted.
pub open spec fn groupings_fit<'a>(left: BatchView<'a>, right: BatchView<'a>) -> bool {
    &&& left.group_by is Some
    &&& right.group_by is Some
    &&& left.group_by->0.len() == right.group_by->0.len()
    &&& left.group_by->0.len() >= 1
    &&& left.uniform()
    &&& right.uniform()
    &&& left.aggregators.len() <= left.select.len()
    &&& left.aggregators.len() <= right.select.len()
    &&& left.len() + right.len() <= usize::MAX
    &&& left.group_by->0.len() >= 2 ==> left.len() <= u32::MAX && right.len() <= u32::MAX
}

/// Two sorted results can be merged: both are sorted by the same column,
/// which both have; they have the same number of columns, all with the same
/// number of rows; and the rows can be counted.
pub open spec fn sorted_fit<'a>(left: BatchView<'a>, right: BatchView<'a>) -> bool {
    &&& left.group_by is None
    &&& right.group_by is None
    &&& left.sort_by is Some
    &&& right.sort_by == left.sort_by
    &&& left.select.len() == right.select.len()
    &&& left.sort_by->0 < left.select.len()
    &&& left.uniform()
    &&& right.uniform()
    &&& left.len() + right.len() <= usize::MAX
}

/// The result of merging two groupings.
pub open spec fn combined_grouping<'a>(left: BatchView<'a>, right: BatchView<'a>) -> Result<
    BatchView<'a>,
    ErrorKind,
> {
    if !groupings_fit(left, right) {
        Err(ErrorKind::Fatal)
    } else {
        match grouping_ops(left.group_by->0, right.group_by->0) {
            None => Err(ErrorKind::NotImplemented),
            Some(ops) => if !(forall|i: int|
                0 <= i < left.aggregators.len() ==> (#[trigger] left.select[i]) is I64
                    && right.select[i] is I64) {
                Err(ErrorKind::Type)
            } else {
                Ok(
                    BatchView {
                        group_by: Some(merged_keys(left.group_by->0, right.group_by->0, ops)),
                        sort_by: None,
                        desc: left.desc,
                        select: Seq::new(
                            left.aggregators.len(),
                            |i: int|
                                ColumnView::I64(
                                    aggregated(
                                        left.select[i]->I64_0,
                                        right.select[i]->I64_0,
                                        ops,
                                        left.aggregators[i],
                                    ),
                                ),
                        ),
                        aggregators: left.aggregators,
                        level: next_level(left.level, right.level),
                        batch_count: batch_total(left.batch_count, right.batch_count),
                    },
                )
            },
        }
    }
}

/// The result of merging two sorted results, cut to `limit` rows.
pub open spec fn combined_sorted<'a>(left: BatchView<'a>, right: BatchView<'a>, limit: nat) -> Result<
    BatchView<'a>,
    ErrorKind,
> {
    if !sorted_fit(left, right) {
        Err(ErrorKind::Fatal)
    } else {
        let index = left.sort_by->0 as int;
        match sort_choices(left.select[index], right.select[index], left.desc, limit) {
            None => Err(ErrorKind::NotImplemented),
            Some(ops) => if !(forall|i: int|
                0 <= i < left.select.len() ==> column_merged(
                    #[trigger] left.select[i],
                    right.select[i],
                    ops,
                ) is Some) {
                Err(ErrorKind::NotImplemented)
            } else {
                Ok(
                    BatchView {
                        group_by: None,
                        sort_by: left.sort_by,
                        desc: left.desc,
                        select: Seq::new(
                            left.select.len(),
                            |i: int| column_merged(left.select[i], right.select[i], ops)->0,
                        ),
                        aggregators: Seq::empty(),
                        level: next_level(left.level, right.level),
                        batch_count: batch_total(left.batch_count, right.batch_count),
                    },
                )
            },
        }
    }
}

/// The result of putting the rows of two unsorted results one after the
/// other, cut to `limit` rows.
pub open spec fn combined_selected<'a>(left: BatchView<'a>, right: BatchView<'a>, limit: nat)
    -> Result<
    BatchView<'a>,
    ErrorKind,
> {
    if right.sort_by is Some || left.select.len() != right.select.len() {
        Err(ErrorKind::Fatal)
    } else {
        Ok(
            BatchView {
                group_by: None,
                sort_by: None,
                desc: left.desc,
                select: Seq::new(
                    left.select.len(),
                    |i: int| left.select[i].concat(right.select[i], limit),
                ),
                aggregators: Seq::empty(),
                level: next_level(left.level, right.level),
                batch_count: batch_total(left.batch_count, right.batch_count),
            },
        )
    }
}

/// The result of combining the results of two partitions, the left one
/// ahead of the right one. Two groupings are merged by their keys, two
/// sorted results by their sort column, two unsorted results are put one
/// after the other. Results of different shapes cannot be combined.
pub open spec fn combined<'a>(left: BatchView<'a>, right: BatchView<'a>, limit: nat) -> Result<
    BatchView<'a>,
    ErrorKind,
> {
    if left.group_by is Some && right.group_by is Some {
        combined_grouping(left, right)
    } else if left.group_by is None && right.group_by is None {
        if left.sort_by is Some {
            combined_sorted(left, right, limit)
        } else {
            combined_selected(left, right, limit)
        }
    } else {
        Err(ErrorKind::Fatal)
    }
}

/// In a uniform batch every column has as many rows as the batch.
pub proof fn lemma_uniform<'a>(batch: BatchView<'a>)
    requires
        batch.uniform(),
        batch.group_by is Some ==> batch.group_by->0.len() > 0,
    ensures
        batch.group_by is Some ==> forall|i: int|
            0 <= i < batch.group_by->0.len() ==> (#[trigger] batch.group_by->0[i]).len()
                == batch.len(),
        forall|i: int| 0 <= i < batch.select.len() ==> (#[trigger] batch.select[i]).len()
            == batch.len(),
{
    let all = batch.columns();
    match batch.group_by {
        Some(g) => {
            assert(all[0] == g[0]);
            assert forall|i: int| 0 <= i < g.len() implies (#[trigger] g[i]).len() == batch.len() by {
                assert(all[i] == g[i]);
            }
            assert forall|i: int| 0 <= i < batch.select.len() implies (
            #[trigger] batch.select[i]).len() == batch.len() by {
                assert(all[g.len() + i] == batch.select[i]);
            }
        },
        None => {
            assert forall|i: int| 0 <= i < batch.select.len() implies (
            #[trigger] batch.select[i]).len() == batch.len() by {
                assert(all[i] == batch.select[i]);
                assert(all[0] == batch.select[0]);
            }
        },
    }
}

/// Merges the one pair of key columns of two groupings.
fn merge_key_columns<'a>(left: &TypedVec<'a>, right: &TypedVec<'a>) -> (res: Result<
    (TypedVec<'a>, Vec<MergeOp>),
    QueryError,
>)
    requires
        left@.len() + right@.len() <= usize::MAX,
    ensures
        match res {
            Ok((column, ops)) => {
                &&& key_ops(left@, right@) == Some(ops@)
                &&& column@ == key_column(left@, right@, ops@)
                &&& taken_left(ops@) == left@.len()
                &&& taken_right(ops@) == right@.len()
                &&& ops@.len() > 0 ==> ops@[0] != MergeOp::MergeRight
            },
            Err(e) => key_ops(left@, right@) is None && e.kind() == ErrorKind::NotImplemented,
        },
{
    // Key columns of other element types are reported as unsupported.
    match (left, right) {
        (TypedVec::Str(a), TypedVec::Str(b)) => {
            let (column, ops) = merge_deduplicate(a.as_slice(), b.as_slice());
            Ok((TypedVec::Str(column), ops))
        },
        (TypedVec::U8(a), TypedVec::U8(b)) => {
            let (column, ops) = merge_deduplicate(a.as_slice(), b.as_slice());
            Ok((TypedVec::U8(column), ops))
        },
        (TypedVec::I64(a), TypedVec::I64(b)) => {
            let (column, ops) = merge_deduplicate(a.as_slice(), b.as_slice());
            Ok((TypedVec::I64(column), ops))
        },
        (t1, t2) => Err(not_implemented("merge_deduplicate", t1.get_type(), t2.get_type())),
    }
}

/// Groups the rows of the first pair of key columns into runs of equal keys.
fn partition_columns<'a>(left: &TypedVec<'a>, right: &TypedVec<'a>, limit: usize) -> (res: Result<
    Vec<Premerge>,
    QueryError,
>)
    requires
        left@.len() <= u32::MAX,
        right@.len() <= u32::MAX,
        left@.len() + right@.len() <= usize::MAX,
    ensures
        match res {
            Ok(partitioning) => {
                &&& column_partition(left@, right@, limit as int) == Some(partitioning@)
                &&& rows_left(partitioning@) <= left@.len()
                &&& rows_right(partitioning@) <= right@.len()
            },
            Err(e) => column_partition(left@, right@, limit as int) is None && e.kind()
                == ErrorKind::NotImplemented,
        },
{
    match (left, right) {
        (TypedVec::Str(a), TypedVec::Str(b)) => {
            proof {
                lemma_partitioned_rows(a@, b@, limit as int);
            }
            Ok(partition(a.as_slice(), b.as_slice(), limit))
        },
        (TypedVec::I64(a), TypedVec::I64(b)) => {
            proof {
                lemma_partitioned_rows(a@, b@, limit as int);
            }
            Ok(partition(a.as_slice(), b.as_slice(), limit))
        },
        (t1, t2) => Err(not_implemented("partition", t1.get_type(), t2.get_type())),
    }
}

/// Splits groups by one more pair of key columns.
fn subpartition_columns<'a>(partitioning: &[Premerge], left: &TypedVec<'a>,
    right: &TypedVec<'a>) -> (res:
    Result<Vec<Premerge>, QueryError>)
    requires
        rows_left(partitioning@) <= left@.len(),
        rows_right(partitioning@) <= right@.len(),
        left@.len() + right@.len() <= usize::MAX,
    ensures
        match res {
            Ok(refined) => {
                &&& column_subpartition(partitioning@, left@, right@) == Some(refined@)
                &&& rows_left(refined@) <= rows_left(partitioning@)
                &&& rows_right(refined@) <= rows_right(partitioning@)
            },
            Err(e) => column_subpartition(partitioning@, left@, right@) is None && e.kind()
                == ErrorKind::NotImplemented,
        },
{
    match (left, right) {
        (TypedVec::Str(a), TypedVec::Str(b)) => {
            proof {
                lemma_subpartitioned_rows(partitioning@, a@, b@);
            }
            Ok(subpartition(partitioning, a.as_slice(), b.as_slice()))
        },
        (TypedVec::I64(a), TypedVec::I64(b)) => {
            proof {
                lemma_subpartitioned_rows(partitioning@, a@, b@);
            }
            Ok(subpartition(partitioning, a.as_slice(), b.as_slice()))
        },
        (t1, t2) => Err(not_implemented("partition", t1.get_type(), t2.get_type())),
    }
}

/// Merges the last pair of key columns within groups.
fn merge_group_columns<'a>(partitioning: &[Premerge], left: &TypedVec<'a>,
    right: &TypedVec<'a>) -> (res:
    Result<(TypedVec<'a>, Vec<MergeOp>), QueryError>)
    requires
        rows_left(partitioning@) <= left@.len(),
        rows_right(partitioning@) <= right@.len(),
        left@.len() + right@.len() <= usize::MAX,
    ensures
        match res {
            Ok((column, ops)) => {
                &&& column_group_ops(partitioning@, left@, right@) == Some(ops@)
                &&& column_drop_merged(left@, right@, ops@) == Some(column@)
                &&& taken_left(ops@) == rows_left(partitioning@)
                &&& taken_right(ops@) == rows_right(partitioning@)
                &&& ops@.len() > 0 ==> ops@[0] != MergeOp::MergeRight
            },
            Err(e) => column_group_ops(partitioning@, left@, right@) is None && e.kind()
                == ErrorKind::NotImplemented,
        },
{
    match (left, right) {
        (TypedVec::Str(a), TypedVec::Str(b)) => {
            let (column, ops) = merge_deduplicate_partitioned(
                partitioning,
                a.as_slice(),
                b.as_slice(),
            );
            Ok((TypedVec::Str(column), ops))
        },
        (TypedVec::I64(a), TypedVec::I64(b)) => {
            let (column, ops) = merge_deduplicate_partitioned(
                partitioning,
                a.as_slice(),
                b.as_slice(),
            );
            Ok((TypedVec::I64(column), ops))
        },
        (t1, t2) => Err(
            not_implemented("merge_deduplicate_partitioned", t1.get_type(), t2.get_type()),
        ),
    }
}

/// Merges a pair of leading key columns by replaying `ops`.
fn drop_merge_columns<'a>(left: &TypedVec<'a>, right: &TypedVec<'a>, ops: &[MergeOp]) -> (res: Result<
    TypedVec<'a>,
    QueryError,
>)
    requires
        taken_left(ops@) <= left@.len(),
        taken_right(ops@) <= right@.len(),
    ensures
        match res {
            Ok(column) => column_drop_merged(left@, right@, ops@) == Some(column@),
            Err(e) => column_drop_merged(left@, right@, ops@) is None && e.kind()
                == ErrorKind::NotImplemented,
        },
{
    match (left, right) {
        (TypedVec::Str(a), TypedVec::Str(b)) => Ok(
            TypedVec::Str(merge_drop(a.as_slice(), b.as_slice(), ops)),
        ),
        (TypedVec::I64(a), TypedVec::I64(b)) => Ok(
            TypedVec::I64(merge_drop(a.as_slice(), b.as_slice(), ops)),
        ),
        (t1, t2) => Err(not_implemented("merge_drop", t1.get_type(), t2.get_type())),
    }
}

/// Merges the sort columns of two sorted results.
fn sort_columns<'a>(left: &TypedVec<'a>, right: &TypedVec<'a>, desc: bool, limit: usize)
    -> (res: Result<
    (TypedVec<'a>, Vec<bool>),
    QueryError,
>)
    requires
        left@.len() + right@.len() <= usize::MAX,
    ensures
        match res {
            Ok((column, ops)) => {
                &&& sort_choices(left@, right@, desc, limit as nat) == Some(ops@)
                &&& column_merged(left@, right@, ops@) == Some(column@)
                &&& picked_left(ops@) <= left@.len()
                &&& picked_right(ops@) <= right@.len()
            },
            Err(e) => sort_choices(left@, right@, desc, limit as nat) is None && e.kind()
                == ErrorKind::NotImplemented,
        },
{
    match (left, right) {
        (TypedVec::Str(a), TypedVec::Str(b)) => {
            let (column, ops) = if desc {
                merge_sort::<_, CmpGreaterThan>(a.as_slice(), b.as_slice(), limit)
            } else {
                merge_sort::<_, CmpLessThan>(a.as_slice(), b.as_slice(), limit)
            };
            Ok((TypedVec::Str(column), ops))
        },
        (TypedVec::I64(a), TypedVec::I64(b)) => {
            let (column, ops) = if desc {
                merge_sort::<_, CmpGreaterThan>(a.as_slice(), b.as_slice(), limit)
            } else {
                merge_sort::<_, CmpLessThan>(a.as_slice(), b.as_slice(), limit)
            };
            Ok((TypedVec::I64(column), ops))
        },
        (t1, t2) => Err(not_implemented("merge_sort", t1.get_type(), t2.get_type())),
    }
}

/// Merges a pair of columns of two sorted results by replaying the choices `ops`.
fn merge_columns<'a>(left: &TypedVec<'a>, right: &TypedVec<'a>, ops: &[bool]) -> (res: Result<
    TypedVec<'a>,
    QueryError,
>)
    requires
        picked_left(ops@) <= left@.len(),
        picked_right(ops@) <= right@.len(),
    ensures
        match res {
            Ok(column) => column_merged(left@, right@, ops@) == Some(column@),
            Err(e) => column_merged(left@, right@, ops@) is None && e.kind()
                == ErrorKind::NotImplemented,
        },
{
    match (left, right) {
        (TypedVec::Str(a), TypedVec::Str(b)) => Ok(
            TypedVec::Str(merge(a.as_slice(), b.as_slice(), ops)),
        ),
        (TypedVec::I64(a), TypedVec::I64(b)) => Ok(
            TypedVec::I64(merge(a.as_slice(), b.as_slice(), ops)),
        ),
        (t1, t2) => Err(not_implemented("merge", t1.get_type(), t2.get_type())),
    }
}

/// One more than the greater of two levels.
fn level_after(left: u32, right: u32) -> (level: u32)
    ensures
        level == next_level(left, right),
{
    let level = if left >= right {
        left
    } else {
        right
    };
    if level == u32::MAX {
        level
    } else {
        level + 1
    }
}

/// The sum of two batch counts.
fn count_after(left: usize, right: usize) -> (count: usize)
    ensures
        count == batch_total(left, right),
{
    if left > usize::MAX - right {
        usize::MAX
    } else {
        left + right
    }
}

/// Once a step of the refinement is not supported, none after it is.
proof fn lemma_refined_none<'a>(
    left: Seq<ColumnView<'a>>,
    right: Seq<ColumnView<'a>>,
    n: nat,
    m: nat,
)
    requires
        1 <= n <= m,
        refined(left, right, n) is None,
    ensures
        refined(left, right, m) is None,
    decreases m,
{
    if n < m {
        lemma_refined_none(left, right, n, (m - 1) as nat);
    }
}

/// Whether two groupings can be merged.
fn check_groupings<'a>(batch1: &BatchResult<'a>, batch2: &BatchResult<'a>) -> (fit: bool)
    ensures
        fit == groupings_fit(batch1@, batch2@),
{
    match (&batch1.group_by, &batch2.group_by) {
        (Some(g1), Some(g2)) => {
            if g1.len() != g2.len() || g1.len() < 1 {
                return false;
            }
            if batch1.validate().is_err() || batch2.validate().is_err() {
                return false;
            }
            if batch1.aggregators.len() > batch1.select.len() || batch1.aggregators.len()
                > batch2.select.len() {
                return false;
            }
            let n1 = batch1.len();
            let n2 = batch2.len();
            if n1 > usize::MAX - n2 {
                return false;
            }
            if g1.len() >= 2 && (n1 > u32::MAX as usize || n2 > u32::MAX as usize) {
                return false;
            }
            true
        },
        _ => false,
    }
}

/// Whether two sorted results can be merged.
fn check_sorted<'a>(batch1: &BatchResult<'a>, batch2: &BatchResult<'a>) -> (fit: bool)
    ensures
        fit == sorted_fit(batch1@, batch2@),
{
    match (&batch1.group_by, &batch2.group_by, batch1.sort_by, batch2.sort_by) {
        (None, None, Some(index1), Some(index2)) => {
            if index1 != index2 || batch1.select.len() != batch2.select.len() || index1
                >= batch1.select.len() {
                return false;
            }
            if batch1.validate().is_err() || batch2.validate().is_err() {
                return false;
            }
            let n1 = batch1.len();
            let n2 = batch2.len();
            n1 <= usize::MAX - n2
        },
        _ => false,
    }
}

/// Merges the key columns of two groupings.
fn merge_groupings<'a>(g1: &Vec<TypedVec<'a>>, g2: &Vec<TypedVec<'a>>, n1: usize, n2: usize) -> (res:
    Result<(Vec<TypedVec<'a>>, Vec<MergeOp>), QueryError>)
    requires
        g1@.len() == g2@.len(),
        g1@.len() >= 1,
        forall|i: int| 0 <= i < g1@.len() ==> (#[trigger] g1@[i])@.len() == n1,
        forall|i: int| 0 <= i < g2@.len() ==> (#[trigger] g2@[i])@.len() == n2,
        n1 + n2 <= usize::MAX,
        g1@.len() >= 2 ==> n1 <= u32::MAX && n2 <= u32::MAX,
    ensures
        match res {
            Ok((keys, ops)) => {
                &&& grouping_ops(column_views(g1@), column_views(g2@)) == Some(ops@)
                &&& column_views(keys@) == merged_keys(
                    column_views(g1@),
                    column_views(g2@),
                    ops@,
                )
                &&& taken_left(ops@) <= n1
                &&& taken_right(ops@) <= n2
                &&& ops@.len() > 0 ==> ops@[0] != MergeOp::MergeRight
            },
            Err(e) => grouping_ops(column_views(g1@), column_views(g2@)) is None && e.kind()
                == ErrorKind::NotImplemented,
        },
{
    let ghost left = column_views(g1@);
    let ghost right = column_views(g2@);
    if g1.len() == 1 {
        let (merged_grouping, ops) = merge_key_columns(&g1[0], &g2[0])?;
        let mut keys: Vec<TypedVec<'a>> = Vec::new();
        keys.push(merged_grouping);
        assert(column_views(keys@) =~= merged_keys(left, right, ops@));
        Ok((keys, ops))
    } else {
        let last = g1.len() - 1;
        let mut partitioning = match partition_columns(&g1[0], &g2[0], usize::MAX) {
            Ok(partitioning) => partitioning,
            Err(e) => {
                proof {
                    lemma_refined_none(left, right, 1, last as nat);
                }
                return Err(e);
            },
        };
        let mut i: usize = 1;
        while i < last
            invariant
                1 <= i <= last,
                last == g1@.len() - 1,
                g1@.len() == g2@.len(),
                left == column_views(g1@),
                right == column_views(g2@),
                forall|i: int| 0 <= i < g1@.len() ==> (#[trigger] g1@[i])@.len() == n1,
                forall|i: int| 0 <= i < g2@.len() ==> (#[trigger] g2@[i])@.len() == n2,
                n1 + n2 <= usize::MAX,
                refined(left, right, i as nat) == Some(partitioning@),
                rows_left(partitioning@) <= n1,
                rows_right(partitioning@) <= n2,
            decreases last - i,
        {
            partitioning = match subpartition_columns(partitioning.as_slice(), &g1[i], &g2[i]) {
                Ok(partitioning) => partitioning,
                Err(e) => {
                    proof {
                        lemma_refined_none(left, right, (i + 1) as nat, last as nat);
                    }
                    return Err(e);
                },
            };
            i += 1;
        }
        let (merged_grouping, ops) = merge_group_columns(
            partitioning.as_slice(),
            &g1[last],
            &g2[last],
        )?;
        let mut keys: Vec<TypedVec<'a>> = Vec::with_capacity(g1.len());
        let mut i: usize = 0;
        while i < last
            invariant
                i <= last,
                last == g1@.len() - 1,
                g1@.len() == g2@.len(),
                left == column_views(g1@),
                right == column_views(g2@),
                forall|i: int| 0 <= i < g1@.len() ==> (#[trigger] g1@[i])@.len() == n1,
                forall|i: int| 0 <= i < g2@.len() ==> (#[trigger] g2@[i])@.len() == n2,
                taken_left(ops@) <= n1,
                taken_right(ops@) <= n2,
                keys@.len() == i,
                forall|k: int|
                    0 <= k < i ==> column_drop_merged(#[trigger] left[k], right[k], ops@) == Some(
                        keys@[k]@,
                    ),
            decreases last - i,
        {
            let column = match drop_merge_columns(&g1[i], &g2[i], ops.as_slice()) {
                Ok(column) => column,
                Err(e) => {
                    assert(column_drop_merged(left[i as int], right[i as int], ops@) is None);
                    return Err(e);
                },
            };
            keys.push(column);
            i += 1;
        }
        keys.push(merged_grouping);
        proof {
            assert forall|k: int| 0 <= k < left.len() implies column_drop_merged(
                #[trigger] left[k],
                right[k],
                ops@,
            ) == Some(keys@[k]@) by {}
            assert(column_views(keys@) =~= merged_keys(left, right, ops@));
        }
        Ok((keys, ops))
    }
}

/// Merges two groupings: the key columns by a deduplicating merge, the
/// aggregate states by replaying its ops.
fn combine_groupings<'a>(batch1: BatchResult<'a>, batch2: BatchResult<'a>) -> (res: Result<
    BatchResult<'a>,
    QueryError,
>)
    requires
        batch1@.group_by is Some,
        batch2@.group_by is Some,
    ensures
        match res {
            Ok(batch) => combined_grouping(batch1@, batch2@) == Ok::<BatchView<'a>, ErrorKind>(
                batch@,
            ),
            Err(e) => combined_grouping(batch1@, batch2@) == Err::<BatchView<'a>, ErrorKind>(
                e.kind(),
            ),
        },
{
    if !check_groupings(&batch1, &batch2) {
        return Err(fatal("Trying to merge incompatible batch results"));
    }
    let n1 = batch1.len();
    let n2 = batch2.len();
    proof {
        lemma_uniform(batch1@);
        lemma_uniform(batch2@);
    }
    let level = level_after(batch1.level, batch2.level);
    let batch_count = count_after(batch1.batch_count, batch2.batch_count);
    let ghost left = batch1@;
    let ghost right = batch2@;
    let BatchResult { group_by: g1, select: select1, aggregators, desc, .. } = batch1;
    let BatchResult { group_by: g2, select: select2, .. } = batch2;
    let (group_by_cols, ops) = match (&g1, &g2) {
        (Some(g1), Some(g2)) => {
            assert forall|i: int| 0 <= i < g1@.len() implies (#[trigger] g1@[i])@.len() == n1 by {
                assert(left.group_by->0[i] == g1@[i]@);
            }
            assert forall|i: int| 0 <= i < g2@.len() implies (#[trigger] g2@[i])@.len() == n2 by {
                assert(right.group_by->0[i] == g2@[i]@);
            }
            merge_groupings(g1, g2, n1, n2)?
        },
        _ => {
            return Err(fatal("Trying to merge incompatible batch results"));
        },
    };
    let mut aggregates: Vec<TypedVec<'a>> = Vec::with_capacity(aggregators.len());
    let mut i: usize = 0;
    while i < aggregators.len()
        invariant
            i <= aggregators@.len(),
            aggregators@ == left.aggregators,
            left == batch1@,
            right == batch2@,
            groupings_fit(left, right),
            grouping_ops(left.group_by->0, right.group_by->0) == Some(ops@),
            left.select == column_views(select1@),
            right.select == column_views(select2@),
            aggregators@.len() <= select1@.len(),
            aggregators@.len() <= select2@.len(),
            forall|k: int| 0 <= k < left.select.len() ==> (#[trigger] left.select[k]).len() == n1,
            forall|k: int| 0 <= k < right.select.len() ==> (#[trigger] right.select[k]).len() == n2,
            taken_left(ops@) <= n1,
            taken_right(ops@) <= n2,
            ops@.len() > 0 ==> ops@[0] != MergeOp::MergeRight,
            aggregates@.len() == i,
            forall|k: int|
                0 <= k < i ==> (#[trigger] left.select[k]) is I64 && right.select[k] is I64
                    && aggregates@[k]@ == ColumnView::I64(
                    aggregated(
                        left.select[k]->I64_0,
                        right.select[k]->I64_0,
                        ops@,
                        aggregators@[k],
                    ),
                ),
        decreases aggregators@.len() - i,
    {
        assert(left.select[i as int] == select1@[i as int]@);
        assert(right.select[i as int] == select2@[i as int]@);
        let merged = match (&select1[i], &select2[i]) {
            (TypedVec::I64(a), TypedVec::I64(b)) => merge_aggregate(
                a.as_slice(),
                b.as_slice(),
                ops.as_slice(),
                aggregators[i],
            ),
            _ => {
                assert(!(left.select[i as int] is I64 && right.select[i as int] is I64));
                return Err(
                    QueryError::TypeError("Aggregate states must be 64-bit integers".to_owned()),
                );
            },
        };
        aggregates.push(TypedVec::I64(merged));
        i += 1;
    }
    let batch = BatchResult {
        group_by: Some(group_by_cols),
        sort_by: None,
        desc,
        select: aggregates,
        aggregators,
        level,
        batch_count,
    };
    proof {
        let expected = combined_grouping(left, right)->Ok_0;
        assert(batch@.select =~= expected.select);
        assert(batch@ == expected);
    }
    Ok(batch)
}

/// Merges two sorted results: the sort columns by a merge that keeps at most
/// `limit` rows, the other columns by replaying its choices.
fn combine_sorted<'a>(batch1: BatchResult<'a>, batch2: BatchResult<'a>, limit: usize) -> (res: Result<
    BatchResult<'a>,
    QueryError,
>)
    ensures
        match res {
            Ok(batch) => combined_sorted(batch1@, batch2@, limit as nat) == Ok::<
                BatchView<'a>,
                ErrorKind,
            >(batch@),
            Err(e) => combined_sorted(batch1@, batch2@, limit as nat) == Err::<
                BatchView<'a>,
                ErrorKind,
            >(e.kind()),
        },
{
    if !check_sorted(&batch1, &batch2) {
        return Err(fatal("Trying to merge incompatible batch results"));
    }
    let n1 = batch1.len();
    let n2 = batch2.len();
    proof {
        lemma_uniform(batch1@);
        lemma_uniform(batch2@);
    }
    let level = level_after(batch1.level, batch2.level);
    let batch_count = count_after(batch1.batch_count, batch2.batch_count);
    let ghost left = batch1@;
    let ghost right = batch2@;
    let index = match batch1.sort_by {
        Some(index) => index,
        None => 0,
    };
    let BatchResult { select: select1, desc, .. } = batch1;
    let BatchResult { select: select2, .. } = batch2;
    assert(left.select[index as int] == select1@[index as int]@);
    assert(right.select[index as int] == select2@[index as int]@);
    let (merged_sort_col, ops) = sort_columns(&select1[index], &select2[index], desc, limit)?;

    let mut result: Vec<TypedVec<'a>> = Vec::with_capacity(select1.len());
    let mut i: usize = 0;
    while i < select1.len()
        invariant
            i <= select1@.len(),
            index < select1@.len(),
            select1@.len() == select2@.len(),
            left == batch1@,
            right == batch2@,
            sorted_fit(left, right),
            left.sort_by == Some(index),
            sort_choices(
                left.select[index as int],
                right.select[index as int],
                left.desc,
                limit as nat,
            ) == Some(ops@),
            left.select == column_views(select1@),
            right.select == column_views(select2@),
            forall|k: int| 0 <= k < left.select.len() ==> (#[trigger] left.select[k]).len() == n1,
            forall|k: int| 0 <= k < right.select.len() ==> (#[trigger] right.select[k]).len() == n2,
            n1 == left.select[index as int].len(),
            n2 == right.select[index as int].len(),
            picked_left(ops@) <= n1,
            picked_right(ops@) <= n2,
            result@.len() == i,
            forall|k: int|
                0 <= k < i && k != index ==> column_merged(
                    #[trigger] left.select[k],
                    right.select[k],
                    ops@,
                ) == Some(result@[k]@),
        decreases select1@.len() - i,
    {
        assert(left.select[i as int] == select1@[i as int]@);
        assert(right.select[i as int] == select2@[i as int]@);
        if i == index {
            result.push(TypedVec::empty(0));
        } else {
            let merged = match merge_columns(&select1[i], &select2[i], ops.as_slice()) {
                Ok(merged) => merged,
                Err(e) => {
                    assert(column_merged(left.select[i as int], right.select[i as int],
                        ops@) is None);
                    return Err(e);
                },
            };
            result.push(merged);
        }
        i += 1;
    }
    result.set(index, merged_sort_col);

    let batch = BatchResult {
        group_by: None,
        sort_by: Some(index),
        select: result,
        desc,
        aggregators: Vec::new(),
        level,
        batch_count,
    };
    proof {
        assert forall|k: int| 0 <= k < left.select.len() implies column_merged(
            #[trigger] left.select[k],
            right.select[k],
            ops@,
        ) == Some(batch@.select[k]) by {}
        let expected = combined_sorted(left, right, limit as nat)->Ok_0;
        assert(batch@.select =~= expected.select);
        assert(batch@.aggregators =~= expected.aggregators);
        assert(batch@ == expected);
    }
    Ok(batch)
}

/// Puts the rows of two unsorted results one after the other and keeps at
/// most `limit` rows.
fn combine_selected<'a>(batch1: BatchResult<'a>, batch2: BatchResult<'a>, limit: usize)
    -> (res: Result<
    BatchResult<'a>,
    QueryError,
>)
    requires
        batch1@.group_by is None,
        batch2@.group_by is None,
        batch1@.sort_by is None,
    ensures
        match res {
            Ok(batch) => combined_selected(batch1@, batch2@, limit as nat) == Ok::<
                BatchView<'a>,
                ErrorKind,
            >(batch@),
            Err(e) => combined_selected(batch1@, batch2@, limit as nat) == Err::<
                BatchView<'a>,
                ErrorKind,
            >(e.kind()),
        },
{
    if batch2.sort_by.is_some() || batch1.select.len() != batch2.select.len() {
        return Err(fatal("Trying to merge incompatible batch results"));
    }
    let level = level_after(batch1.level, batch2.level);
    let batch_count = count_after(batch1.batch_count, batch2.batch_count);
    let ghost left = batch1@;
    let ghost right = batch2@;
    let BatchResult { select: select1, desc, .. } = batch1;
    let BatchResult { select: select2, .. } = batch2;
    let mut select1 = select1;
    let mut select2 = select2;
    let mut result: Vec<TypedVec<'a>> = Vec::with_capacity(select1.len());
    let mut i: usize = 0;
    while i < select1.len()
        invariant
            i <= select1@.len(),
            select1@.len() == select2@.len(),
            select1@.len() == left.select.len(),
            forall|k: int| i <= k < select1@.len() ==> (#[trigger] select1@[k])@ == left.select[k],
            forall|k: int| i <= k < select2@.len() ==> (#[trigger] select2@[k])@ == right.select[k],
            result@.len() == i,
            forall|k: int|
                0 <= k < i ==> (#[trigger] result@[k])@ == left.select[k].concat(
                    right.select[k],
                    limit as nat,
                ),
        decreases select1@.len() - i,
    {
        let mut col1 = TypedVec::empty(0);
        let mut col2 = TypedVec::empty(0);
        core::mem::swap(&mut col1, &mut select1[i]);
        core::mem::swap(&mut col2, &mut select2[i]);
        result.push(col1.extend(col2, limit));
        i += 1;
    }
    let batch = BatchResult {
        group_by: None,
        sort_by: None,
        select: result,
        desc,
        aggregators: Vec::new(),
        level,
        batch_count,
    };
    proof {
        let expected = combined_selected(left, right, limit as nat)->Ok_0;
        assert(batch@.select =~= expected.select);
        assert(batch@.aggregators =~= expected.aggregators);
        assert(batch@ == expected);
    }
    Ok(batch)
}

/// Combines the results of two partitions into one, `batch1` ahead of
/// `batch2`, and keeps at most `limit` rows of results that are not grouped.
pub fn combine<'a>(batch1: BatchResult<'a>, batch2: BatchResult<'a>, limit: usize) -> (res: Result<
    BatchResult<'a>,
    QueryError,
>)
    ensures
        match res {
            Ok(batch) => combined(batch1@, batch2@, limit as nat) == Ok::<BatchView<'a>, ErrorKind>(
                batch@,
            ),
            Err(e) => combined(batch1@, batch2@, limit as nat) == Err::<BatchView<'a>, ErrorKind>(
                e.kind(),
            ),
        },
{
    let grouped1 = batch1.group_by.is_some();
    let grouped2 = batch2.group_by.is_some();
    if grouped1 && grouped2 {
        // Aggregation query
        combine_groupings(batch1, batch2)
    } else if !grouped1 && !grouped2 {
        // No aggregation
        if batch1.sort_by.is_some() {
            // Sort query
            combine_sorted(batch1, batch2, limit)
        } else {
            // Select query
            combine_selected(batch1, batch2, limit)
        }
    } else {
        Err(fatal("Trying to merge incompatible batch results"))
    }
}

} // verus!
