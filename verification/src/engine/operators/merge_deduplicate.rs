//! Merging two sorted key columns into their sorted union without duplicates.

use vstd::prelude::*;

use crate::engine::batch_merging::{
    drop_merged, emitted, lemma_ops_counts, merged_count, taken_left, taken_right, MergeOp,
};
use std::marker::PhantomData;

use crate::engine::comparator::{lemma_direction_order, Comparator};
use crate::engine::operators::merge::placed;
use crate::engine::scratchpad::{
    format_operator, operator_text, BufferRef, Scratchpad, VecOperator, VecType,
};
use crate::engine::vec_data::{equiv, VecData};
use crate::errors::QueryError;

verus! {

/// Merges the sorted key columns in the buffers `left` and `right` into one
/// column without duplicates in the buffer `deduplicated`, and records the
/// ops stream of the merge in `merge_ops`.
#[derive(Debug)]
pub struct MergeDeduplicate<T, C> {
    pub left: BufferRef<T>,
    pub right: BufferRef<T>,
    pub deduplicated: BufferRef<T>,
    pub merge_ops: BufferRef<MergeOp>,
    pub comparator: PhantomData<C>,
}

impl<'a, T: VecData + VecType<'a>, C: Comparator<T>> VecOperator<'a> for MergeDeduplicate<T, C> {
    fn execute(&mut self, stream: bool, scratchpad: &mut Scratchpad<'a>) -> (res: Result<
        (),
        QueryError,
    >)
        ensures
            *final(self) == *old(self),
            res is Ok <==> placed(
                old(scratchpad)@,
                T::elements(old(scratchpad)@[old(self).left.i as int]),
                T::elements(old(scratchpad)@[old(self).right.i as int]),
                old(self).left.i,
                old(self).right.i,
                old(self).deduplicated.i,
                old(self).merge_ops.i,
            ),
            res is Ok ==> {
                let left = T::elements(old(scratchpad)@[old(self).left.i as int]);
                let right = T::elements(old(scratchpad)@[old(self).right.i as int]);
                let ops = dedup_ops::<T, C>(left->0, right->0, None);
                &&& left is Some
                &&& right is Some
                &&& final(scratchpad)@ == old(scratchpad)@.update(
                    old(self).deduplicated.i as int,
                    T::slot_of(drop_merged(left->0, right->0, ops)),
                ).update(old(self).merge_ops.i as int, <MergeOp as VecType<'a>>::slot_of(ops))
            },
            res is Err ==> final(scratchpad)@ == old(scratchpad)@,
            res is Err ==> res->Err_0 is TypeError,
    {
        if self.deduplicated.i >= scratchpad.len() || self.merge_ops.i >= scratchpad.len() {
            return Err(QueryError::TypeError("Output buffer is missing".to_owned()));
        }
        let (deduplicated, merge_ops) = {
            let left = scratchpad.get(&self.left)?;
            let right = scratchpad.get(&self.right)?;
            merge_deduplicate::<_, C>(left, right)
        };
        scratchpad.set(&self.deduplicated, deduplicated);
        scratchpad.set(&self.merge_ops, merge_ops);
        Ok(())
    }

    fn init(&mut self, total_count: usize, batch_size: usize, scratchpad: &mut Scratchpad<'a>)
        ensures
            *final(self) == *old(self),
            final(scratchpad)@ == old(scratchpad)@,
    {
    }

    open spec fn input_positions(&self) -> Seq<usize> {
        seq![self.left.i, self.right.i]
    }

    open spec fn output_positions(&self) -> Seq<usize> {
        seq![self.deduplicated.i, self.merge_ops.i]
    }

    fn inputs(&self) -> (positions: Vec<usize>) {
        vec![self.left.any(), self.right.any()]
    }

    fn outputs(&self) -> (positions: Vec<usize>) {
        vec![self.deduplicated.any(), self.merge_ops.any()]
    }

    fn can_stream_input(&self, i: usize) -> (streams: bool)
        ensures
            !streams,
    {
        false
    }

    fn can_stream_output(&self, i: usize) -> (streams: bool)
        ensures
            !streams,
    {
        false
    }

    fn can_block_output(&self) -> (blocks: bool)
        ensures
            !blocks,
    {
        false
    }

    fn allocates(&self) -> (allocates: bool)
        ensures
            allocates,
    {
        true
    }

    fn display_op(&self, alternate: bool) -> (text: String)
        ensures
            text@ == operator_text("merge_deduplicate"@, self.input_positions()),
    {
        format_operator("merge_deduplicate", self.inputs().as_slice())
    }
}

/// `n` times the same op.
pub open spec fn repeated(op: MergeOp, n: nat) -> Seq<MergeOp> {
    Seq::new(n, |k: int| op)
}

/// The last element of `column`, if it has one.
pub open spec fn last_of<T>(column: Seq<T>) -> Option<T> {
    if column.len() == 0 {
        None
    } else {
        Some(column.last())
    }
}

/// The ops stream of a deduplicating merge of `left` and `right` in the order
/// `C`, where `last` is the key that was emitted last.
///
/// While both inputs have rows: a right row with the key emitted last is
/// folded; else the left row is taken if it may come before the right row;
/// else the right row is taken. Once the right input is used up the left rows
/// are taken. Once the left input is used up the first right row is folded if
/// it has the key emitted last, and the others are taken.
pub open spec fn dedup_ops<T: VecData, C: Comparator<T>>(
    left: Seq<T>,
    right: Seq<T>,
    last: Option<T>,
) -> Seq<MergeOp>
    decreases left.len() + right.len(),
{
    if left.len() > 0 && right.len() > 0 {
        if last is Some && equiv(last->0, right[0]) {
            seq![MergeOp::MergeRight] + dedup_ops::<T, C>(left, right.drop_first(), last)
        } else if C::before_or_equal(left[0], right[0]) {
            seq![MergeOp::TakeLeft] + dedup_ops::<T, C>(left.drop_first(), right, Some(left[0]))
        } else {
            seq![MergeOp::TakeRight] + dedup_ops::<T, C>(left, right.drop_first(), Some(right[0]))
        }
    } else if left.len() > 0 {
        repeated(MergeOp::TakeLeft, left.len())
    } else if right.len() > 0 {
        if last is Some && equiv(last->0, right[0]) {
            seq![MergeOp::MergeRight] + repeated(MergeOp::TakeRight, (right.len() - 1) as nat)
        } else {
            repeated(MergeOp::TakeRight, right.len())
        }
    } else {
        Seq::empty()
    }
}

/// Any two elements of `column` stand in the order `C`, the earlier one first.
pub open spec fn sorted_by<T: VecData, C: Comparator<T>>(column: Seq<T>) -> bool {
    forall|a: int, b: int|
        0 <= a < b < column.len() ==> C::before_or_equal(#[trigger] column[a], #[trigger] column[b])
}

/// Any two elements of `column` stand strictly in the order `C`, the earlier one first.
pub open spec fn strictly_sorted_by<T: VecData, C: Comparator<T>>(column: Seq<T>) -> bool {
    forall|a: int, b: int|
        0 <= a < b < column.len() ==> C::before(#[trigger] column[a], #[trigger] column[b])
}

/// How the keys emitted so far stand to the rows not consumed yet, from
/// position `i` of `left` and `j` of `right` on, while strictly sorted inputs
/// are merged: the keys are strictly sorted, every key comes strictly before
/// the left rows, every key but the last comes strictly before the right rows,
/// and the last key may at most equal the next right row.
pub open spec fn keys_ahead<T: VecData, C: Comparator<T>>(
    keys: Seq<T>,
    left: Seq<T>,
    right: Seq<T>,
    i: int,
    j: int,
) -> bool {
    &&& strictly_sorted_by::<T, C>(keys)
    &&& forall|x: int, k: int|
        0 <= x < keys.len() && i <= k < left.len() ==> C::before(
            #[trigger] keys[x],
            #[trigger] left[k],
        )
    &&& forall|x: int, k: int|
        0 <= x < keys.len() - 1 && j <= k < right.len() ==> C::before(
            #[trigger] keys[x],
            #[trigger] right[k],
        )
    &&& forall|k: int|
        keys.len() > 0 && j <= k < right.len() ==> C::before_or_equal(
            keys.last(),
            #[trigger] right[k],
        )
    &&& forall|k: int|
        keys.len() > 0 && j < k < right.len() ==> C::before(keys.last(), #[trigger] right[k])
}

/// Folding the next right row keeps `keys_ahead`.
pub proof fn lemma_keys_ahead_fold<T: VecData, C: Comparator<T>>(
    keys: Seq<T>,
    left: Seq<T>,
    right: Seq<T>,
    i: int,
    j: int,
)
    requires
        keys_ahead::<T, C>(keys, left, right, i, j),
        0 <= j < right.len(),
    ensures
        keys_ahead::<T, C>(keys, left, right, i, j + 1),
        keys.len() > 0 && j + 1 < right.len() ==> C::before(keys.last(), right[j + 1]),
{
    assert forall|k: int| keys.len() > 0 && j + 1 <= k < right.len() implies C::before_or_equal(
        keys.last(),
        #[trigger] right[k],
    ) by {
        lemma_direction_order::<T, C>(keys.last(), right[k], right[k]);
    }
}

/// Taking the next left row keeps `keys_ahead`.
pub proof fn lemma_keys_ahead_take_left<T: VecData, C: Comparator<T>>(
    keys: Seq<T>,
    left: Seq<T>,
    right: Seq<T>,
    i: int,
    j: int,
)
    requires
        strictly_sorted_by::<T, C>(left),
        strictly_sorted_by::<T, C>(right),
        keys_ahead::<T, C>(keys, left, right, i, j),
        0 <= i < left.len(),
        0 <= j <= right.len(),
        j < right.len() ==> C::before_or_equal(left[i], right[j]),
        j < right.len() && keys.len() > 0 ==> !equiv(keys.last(), right[j]),
    ensures
        keys_ahead::<T, C>(keys.push(left[i]), left, right, i + 1, j),
{
    let longer = keys.push(left[i]);
    assert forall|a: int, b: int| 0 <= a < b < longer.len() implies C::before(
        #[trigger] longer[a],
        #[trigger] longer[b],
    ) by {
        if b < keys.len() {
            assert(C::before(keys[a], keys[b]));
        } else {
            assert(C::before(keys[a], left[i]));
        }
    }
    assert forall|x: int, k: int| 0 <= x < longer.len() && i + 1 <= k < left.len() implies C::before(
        #[trigger] longer[x],
        #[trigger] left[k],
    ) by {
        if x < keys.len() {
            assert(C::before(keys[x], left[k]));
        } else {
            assert(C::before(left[i], left[k]));
        }
    }
    assert forall|x: int, k: int| 0 <= x < longer.len() - 1 && j <= k < right.len() implies C::before(
        #[trigger] longer[x],
        #[trigger] right[k],
    ) by {
        if x < keys.len() - 1 {
            assert(C::before(keys[x], right[k]));
        } else if k > j {
            assert(C::before(keys.last(), right[k]));
        } else {
            assert(C::before_or_equal(keys.last(), right[k]));
            lemma_direction_order::<T, C>(keys.last(), right[j], right[j]);
        }
    }
    assert forall|k: int| j <= k < right.len() implies C::before_or_equal(
        left[i],
        #[trigger] right[k],
    ) && (j < k ==> C::before(left[i], right[k])) by {
        if k > j {
            assert(C::before(right[j], right[k]));
            lemma_direction_order::<T, C>(right[j], right[k], left[i]);
            lemma_direction_order::<T, C>(left[i], right[j], right[k]);
            lemma_direction_order::<T, C>(right[k], left[i], right[j]);
            lemma_direction_order::<T, C>(left[i], right[k], right[k]);
        }
    }
    assert(longer.last() == left[i]);
}

/// Taking the next right row keeps `keys_ahead`.
pub proof fn lemma_keys_ahead_take_right<T: VecData, C: Comparator<T>>(
    keys: Seq<T>,
    left: Seq<T>,
    right: Seq<T>,
    i: int,
    j: int,
)
    requires
        strictly_sorted_by::<T, C>(left),
        strictly_sorted_by::<T, C>(right),
        keys_ahead::<T, C>(keys, left, right, i, j),
        0 <= i <= left.len(),
        0 <= j < right.len(),
        i < left.len() ==> !C::before_or_equal(left[i], right[j]),
        keys.len() > 0 ==> !equiv(keys.last(), right[j]),
    ensures
        keys_ahead::<T, C>(keys.push(right[j]), left, right, i, j + 1),
        j + 1 < right.len() ==> C::before(right[j], right[j + 1]),
{
    let longer = keys.push(right[j]);
    assert forall|a: int, b: int| 0 <= a < b < longer.len() implies C::before(
        #[trigger] longer[a],
        #[trigger] longer[b],
    ) by {
        if b < keys.len() {
            assert(C::before(keys[a], keys[b]));
        } else if a < keys.len() - 1 {
            assert(C::before(keys[a], right[j]));
        } else {
            assert(C::before_or_equal(keys.last(), right[j]));
            lemma_direction_order::<T, C>(keys.last(), right[j], right[j]);
        }
    }
    assert forall|x: int, k: int| 0 <= x < longer.len() && i <= k < left.len() implies C::before(
        #[trigger] longer[x],
        #[trigger] left[k],
    ) by {
        if x < keys.len() {
            assert(C::before(keys[x], left[k]));
        } else {
            lemma_direction_order::<T, C>(right[j], left[i], left[i]);
            lemma_direction_order::<T, C>(right[j], left[k], left[k]);
            if k > i {
                assert(C::before(left[i], left[k]));
                lemma_direction_order::<T, C>(left[k], right[j], left[i]);
                lemma_direction_order::<T, C>(left[i], left[k], left[k]);
            }
        }
    }
    assert forall|x: int, k: int| 0 <= x < longer.len() - 1 && j + 1 <= k < right.len()
        implies C::before(
        #[trigger] longer[x],
        #[trigger] right[k],
    ) by {
        if x < keys.len() - 1 {
            assert(C::before(keys[x], right[k]));
        } else {
            assert(C::before(keys.last(), right[k]));
        }
    }
    assert forall|k: int| j + 1 <= k < right.len() implies C::before_or_equal(
        right[j],
        #[trigger] right[k],
    ) && C::before(right[j], right[k]) by {
        assert(C::before(right[j], right[k]));
        lemma_direction_order::<T, C>(right[j], right[k], right[k]);
    }
    assert(longer.last() == right[j]);
}

/// The rows that `ops` consumes, in the order in which it consumes them: a
/// left row for `TakeLeft`, a right row for `TakeRight` and `MergeRight`.
pub open spec fn consumed<T>(left: Seq<T>, right: Seq<T>, ops: Seq<MergeOp>) -> Seq<T>
    decreases ops.len(),
{
    if ops.len() == 0 {
        Seq::empty()
    } else {
        let before = ops.drop_last();
        consumed(left, right, before).push(
            if ops.last() == MergeOp::TakeLeft {
                left[taken_left(before) as int]
            } else {
                right[taken_right(before) as int]
            },
        )
    }
}

/// How rows that were consumed stand to the rows not consumed yet, from
/// position `i` of `left` and `j` of `right` on, while sorted inputs are
/// merged: the rows are sorted, and none comes after a row still to come.
pub open spec fn rows_behind<T: VecData, C: Comparator<T>>(
    rows: Seq<T>,
    left: Seq<T>,
    right: Seq<T>,
    i: int,
    j: int,
) -> bool {
    &&& sorted_by::<T, C>(rows)
    &&& forall|x: int, k: int|
        0 <= x < rows.len() && i <= k < left.len() ==> C::before_or_equal(
            #[trigger] rows[x],
            #[trigger] left[k],
        )
    &&& forall|x: int, k: int|
        0 <= x < rows.len() && j <= k < right.len() ==> C::before_or_equal(
            #[trigger] rows[x],
            #[trigger] right[k],
        )
}

/// Consuming the next left row keeps `rows_behind`, where that row may come
/// before the right rows still to come.
pub proof fn lemma_rows_behind_left<T: VecData, C: Comparator<T>>(
    rows: Seq<T>,
    left: Seq<T>,
    right: Seq<T>,
    i: int,
    j: int,
)
    requires
        sorted_by::<T, C>(left),
        rows_behind::<T, C>(rows, left, right, i, j),
        0 <= i < left.len(),
        0 <= j,
        forall|k: int| j <= k < right.len() ==> C::before_or_equal(left[i], #[trigger] right[k]),
    ensures
        rows_behind::<T, C>(rows.push(left[i]), left, right, i + 1, j),
{
    let longer = rows.push(left[i]);
    assert forall|a: int, b: int| 0 <= a < b < longer.len() implies C::before_or_equal(
        #[trigger] longer[a],
        #[trigger] longer[b],
    ) by {
        if b < rows.len() {
            assert(C::before_or_equal(rows[a], rows[b]));
        } else {
            assert(C::before_or_equal(rows[a], left[i]));
        }
    }
    assert forall|x: int, k: int| 0 <= x < longer.len() && i + 1 <= k < left.len()
        implies C::before_or_equal(
        #[trigger] longer[x],
        #[trigger] left[k],
    ) by {
        if x < rows.len() {
            assert(C::before_or_equal(rows[x], left[k]));
        } else {
            assert(C::before_or_equal(left[i], left[k]));
        }
    }
    assert forall|x: int, k: int| 0 <= x < longer.len() && j <= k < right.len()
        implies C::before_or_equal(
        #[trigger] longer[x],
        #[trigger] right[k],
    ) by {
        if x < rows.len() {
            assert(C::before_or_equal(rows[x], right[k]));
        }
    }
}

/// Consuming the next right row keeps `rows_behind`, where that row may come
/// before the left rows still to come.
pub proof fn lemma_rows_behind_right<T: VecData, C: Comparator<T>>(
    rows: Seq<T>,
    left: Seq<T>,
    right: Seq<T>,
    i: int,
    j: int,
)
    requires
        sorted_by::<T, C>(right),
        rows_behind::<T, C>(rows, left, right, i, j),
        0 <= i,
        0 <= j < right.len(),
        forall|k: int| i <= k < left.len() ==> C::before_or_equal(right[j], #[trigger] left[k]),
    ensures
        rows_behind::<T, C>(rows.push(right[j]), left, right, i, j + 1),
{
    let longer = rows.push(right[j]);
    assert forall|a: int, b: int| 0 <= a < b < longer.len() implies C::before_or_equal(
        #[trigger] longer[a],
        #[trigger] longer[b],
    ) by {
        if b < rows.len() {
            assert(C::before_or_equal(rows[a], rows[b]));
        } else {
            assert(C::before_or_equal(rows[a], right[j]));
        }
    }
    assert forall|x: int, k: int| 0 <= x < longer.len() && i <= k < left.len()
        implies C::before_or_equal(
        #[trigger] longer[x],
        #[trigger] left[k],
    ) by {
        if x < rows.len() {
            assert(C::before_or_equal(rows[x], left[k]));
        }
    }
    assert forall|x: int, k: int| 0 <= x < longer.len() && j + 1 <= k < right.len()
        implies C::before_or_equal(
        #[trigger] longer[x],
        #[trigger] right[k],
    ) by {
        if x < rows.len() {
            assert(C::before_or_equal(rows[x], right[k]));
        } else {
            assert(C::before_or_equal(right[j], right[k]));
        }
    }
}

/// The next left row may come before the right rows still to come if it may
/// come before the first of them.
proof fn lemma_left_leads<T: VecData, C: Comparator<T>>(left: Seq<T>, right: Seq<T>, i: int, j: int)
    requires
        sorted_by::<T, C>(right),
        0 <= i < left.len(),
        0 <= j,
        j < right.len() ==> C::before_or_equal(left[i], right[j]),
    ensures
        forall|k: int| j <= k < right.len() ==> C::before_or_equal(left[i], #[trigger] right[k]),
{
    assert forall|k: int| j <= k < right.len() implies C::before_or_equal(
        left[i],
        #[trigger] right[k],
    ) by {
        if k > j {
            assert(C::before_or_equal(right[j], right[k]));
            lemma_direction_order::<T, C>(left[i], right[j], right[k]);
        }
    }
}

/// The next right row may come before the left rows still to come if it may
/// come before the first of them.
proof fn lemma_right_leads<T: VecData, C: Comparator<T>>(left: Seq<T>, right: Seq<T>, i: int, j: int)
    requires
        sorted_by::<T, C>(left),
        0 <= i,
        0 <= j < right.len(),
        i < left.len() ==> C::before_or_equal(right[j], left[i]),
    ensures
        forall|k: int| i <= k < left.len() ==> C::before_or_equal(right[j], #[trigger] left[k]),
{
    assert forall|k: int| i <= k < left.len() implies C::before_or_equal(
        right[j],
        #[trigger] left[k],
    ) by {
        if k > i {
            assert(C::before_or_equal(left[i], left[k]));
            lemma_direction_order::<T, C>(right[j], left[i], left[k]);
        }
    }
}

/// The rows consumed by a stream with one more op.
pub proof fn lemma_consumed_push<T>(left: Seq<T>, right: Seq<T>, ops: Seq<MergeOp>, op: MergeOp)
    ensures
        consumed(left, right, ops.push(op)) == consumed(left, right, ops).push(
            if op == MergeOp::TakeLeft {
                left[taken_left(ops) as int]
            } else {
                right[taken_right(ops) as int]
            },
        ),
{
    assert(ops.push(op).drop_last() =~= ops);
}

/// One of `keys` equals `row` in the order of its type.
pub open spec fn has_equal<T: VecData>(keys: Seq<T>, row: T) -> bool {
    exists|k: int| 0 <= k < keys.len() && equiv(#[trigger] keys[k], row)
}

/// The keys are the keys of the rows consumed, nothing lost and nothing
/// invented: every key is a left row ahead of position `i` or a right row
/// ahead of position `j`, every such left row is a key, and every such right
/// row equals a key.
#[verifier::opaque]
pub open spec fn covers<T: VecData>(keys: Seq<T>, left: Seq<T>, right: Seq<T>, i: int, j: int)
    -> bool {
    &&& forall|k: int|
        0 <= k < keys.len() ==> left.take(i).contains(#[trigger] keys[k]) || right.take(
            j,
        ).contains(keys[k])
    &&& forall|x: int| 0 <= x < i ==> keys.contains(#[trigger] left[x])
    &&& forall|y: int| 0 <= y < j ==> has_equal(keys, #[trigger] right[y])
}

/// Every fold is a fold into the key emitted last: where `ops` folds a right
/// row, a key was emitted before it, and the key emitted last equals the row.
#[verifier::opaque]
pub open spec fn folds_match<T: VecData>(left: Seq<T>, right: Seq<T>, ops: Seq<MergeOp>) -> bool {
    forall|p: int|
        0 <= p < ops.len() && #[trigger] ops[p] == MergeOp::MergeRight ==> {
            let before = ops.take(p);
            &&& emitted(before) > 0
            &&& taken_right(before) < right.len()
            &&& equiv(
                drop_merged(left, right, before).last(),
                right[taken_right(before) as int],
            )
        }
}

/// Number of rows of `right` that equal a row of `left`.
pub open spec fn shared<T: VecData>(left: Seq<T>, right: Seq<T>) -> nat
    decreases right.len(),
{
    if right.len() == 0 {
        0
    } else {
        shared(left, right.drop_last()) + if has_equal(left, right.last()) {
            1nat
        } else {
            0nat
        }
    }
}

/// A right row that is folded while strictly sorted inputs are merged
/// equals a left row: the key emitted last is no earlier right row.
pub proof fn lemma_fold_is_shared<T: VecData, C: Comparator<T>>(
    keys: Seq<T>,
    left: Seq<T>,
    right: Seq<T>,
    i: int,
    j: int,
)
    requires
        strictly_sorted_by::<T, C>(right),
        covers(keys, left, right, i, j),
        0 <= i <= left.len(),
        0 <= j < right.len(),
        keys.len() > 0,
        equiv(keys.last(), right[j]),
    ensures
        has_equal(left, right[j]),
        shared(left, right.take(j + 1)) == shared(left, right.take(j)) + 1,
{
    reveal(covers);
    let last = keys[keys.len() - 1];
    if right.take(j).contains(last) {
        let y = right.take(j).index_of(last);
        assert(right[y] == last);
        assert(C::before(right[y], right[j]));
        lemma_direction_order::<T, C>(right[y], right[j], right[j]);
    }
    let x = left.take(i).index_of(last);
    assert(left[x] == last);
    assert(equiv(left[x], right[j]));
    assert(right.take(j + 1).drop_last() =~= right.take(j));
    assert(right.take(j + 1).last() == right[j]);
}

/// A right row that is taken while strictly sorted inputs are merged equals
/// no left row.
pub proof fn lemma_take_is_not_shared<T: VecData, C: Comparator<T>>(
    keys: Seq<T>,
    left: Seq<T>,
    right: Seq<T>,
    i: int,
    j: int,
)
    requires
        strictly_sorted_by::<T, C>(left),
        keys_ahead::<T, C>(keys, left, right, i, j),
        covers(keys, left, right, i, j),
        0 <= i <= left.len(),
        0 <= j < right.len(),
        i < left.len() ==> !C::before_or_equal(left[i], right[j]),
        keys.len() > 0 ==> !equiv(keys.last(), right[j]),
    ensures
        !has_equal(left, right[j]),
        shared(left, right.take(j + 1)) == shared(left, right.take(j)),
{
    reveal(covers);
    assert forall|x: int| 0 <= x < left.len() implies !equiv(#[trigger] left[x], right[j]) by {
        if x < i {
            let k = keys.index_of(left[x]);
            assert(keys[k] == left[x]);
            if k < keys.len() - 1 {
                assert(C::before(keys[k], right[j]));
            } else {
                assert(C::before_or_equal(keys.last(), right[j]));
            }
            lemma_direction_order::<T, C>(keys[k], right[j], right[j]);
            lemma_direction_order::<T, C>(right[j], keys[k], keys[k]);
        } else {
            lemma_direction_order::<T, C>(left[i], right[j], right[j]);
            lemma_direction_order::<T, C>(right[j], left[i], left[x]);
            if x > i {
                assert(C::before(left[i], left[x]));
                lemma_direction_order::<T, C>(left[i], left[x], right[j]);
                lemma_direction_order::<T, C>(left[x], right[j], left[i]);
            }
            lemma_direction_order::<T, C>(left[x], right[j], right[j]);
        }
    }
    assert(right.take(j + 1).drop_last() =~= right.take(j));
    assert(right.take(j + 1).last() == right[j]);
}

/// Before any row is consumed there is no key and no fold.
pub proof fn lemma_walk_start<T: VecData>(left: Seq<T>, right: Seq<T>)
    ensures
        covers(Seq::<T>::empty(), left, right, 0, 0),
        folds_match(left, right, Seq::<MergeOp>::empty()),
{
    reveal(covers);
    reveal(folds_match);
}

/// Taking a row keeps `covers` and `folds_match`.
pub proof fn lemma_walk_take<T: VecData>(
    keys: Seq<T>,
    ops: Seq<MergeOp>,
    left: Seq<T>,
    right: Seq<T>,
    i: int,
    j: int,
    from_left: bool,
)
    requires
        covers(keys, left, right, i, j),
        folds_match(left, right, ops),
        0 <= i <= left.len(),
        0 <= j <= right.len(),
        from_left ==> i < left.len(),
        !from_left ==> j < right.len(),
    ensures
        from_left ==> covers(keys.push(left[i]), left, right, i + 1, j) && folds_match(
            left,
            right,
            ops.push(MergeOp::TakeLeft),
        ),
        !from_left ==> covers(keys.push(right[j]), left, right, i, j + 1) && folds_match(
            left,
            right,
            ops.push(MergeOp::TakeRight),
        ),
{
    reveal(covers);
    reveal(folds_match);
    let row = if from_left {
        left[i]
    } else {
        right[j]
    };
    let op = if from_left {
        MergeOp::TakeLeft
    } else {
        MergeOp::TakeRight
    };
    let longer = keys.push(row);
    let more = ops.push(op);
    assert(longer[keys.len() as int] == row);
    let i2 = if from_left {
        i + 1
    } else {
        i
    };
    let j2 = if from_left {
        j
    } else {
        j + 1
    };
    assert forall|k: int| 0 <= k < longer.len() implies left.take(i2).contains(
        #[trigger] longer[k],
    ) || right.take(j2).contains(longer[k]) by {
        if k < keys.len() {
            assert(longer[k] == keys[k]);
            if left.take(i).contains(keys[k]) {
                let x = left.take(i).index_of(keys[k]);
                assert(left.take(i2)[x] == keys[k]);
            } else {
                let y = right.take(j).index_of(keys[k]);
                assert(right.take(j2)[y] == keys[k]);
            }
        } else if from_left {
            assert(left.take(i2)[i] == longer[k]);
        } else {
            assert(right.take(j2)[j] == longer[k]);
        }
    }
    assert forall|x: int| 0 <= x < (if from_left {
        i + 1
    } else {
        i
    }) implies longer.contains(#[trigger] left[x]) by {
        if x < i {
            let k = keys.index_of(left[x]);
            assert(longer[k] == left[x]);
        }
    }
    assert forall|y: int| 0 <= y < (if from_left {
        j
    } else {
        j + 1
    }) implies has_equal(longer, #[trigger] right[y]) by {
        if y < j {
            let k = choose|k: int| 0 <= k < keys.len() && equiv(#[trigger] keys[k], right[y]);
            assert(equiv(longer[k], right[y]));
        } else {
            T::le_total(right[j], right[j]);
            assert(equiv(longer[keys.len() as int], right[y]));
        }
    }
    assert forall|p: int| 0 <= p < more.len() && #[trigger] more[p] == MergeOp::MergeRight implies {
        let before = more.take(p);
        &&& emitted(before) > 0
        &&& taken_right(before) < right.len()
        &&& equiv(drop_merged(left, right, before).last(), right[taken_right(before) as int])
    } by {
        assert(p < ops.len());
        assert(more.take(p) =~= ops.take(p));
        assert(ops[p] == MergeOp::MergeRight);
    }
}

/// Folding a right row that equals the key emitted last keeps `covers` and
/// `folds_match`.
pub proof fn lemma_walk_fold<T: VecData>(
    keys: Seq<T>,
    ops: Seq<MergeOp>,
    left: Seq<T>,
    right: Seq<T>,
    i: int,
    j: int,
)
    requires
        covers(keys, left, right, i, j),
        folds_match(left, right, ops),
        keys == drop_merged(left, right, ops),
        keys.len() == emitted(ops),
        j == taken_right(ops),
        0 <= j < right.len(),
        keys.len() > 0,
        equiv(keys.last(), right[j]),
    ensures
        covers(keys, left, right, i, j + 1),
        folds_match(left, right, ops.push(MergeOp::MergeRight)),
{
    reveal(covers);
    reveal(folds_match);
    let more = ops.push(MergeOp::MergeRight);
    assert forall|k: int| 0 <= k < keys.len() implies left.take(i).contains(#[trigger] keys[k])
        || right.take(j + 1).contains(keys[k]) by {
        if !left.take(i).contains(keys[k]) {
            let y = right.take(j).index_of(keys[k]);
            assert(right.take(j + 1)[y] == keys[k]);
        }
    }
    assert forall|y: int| 0 <= y < j + 1 implies has_equal(keys, #[trigger] right[y]) by {
        if y == j {
            assert(equiv(keys[keys.len() - 1], right[y]));
        }
    }
    assert forall|p: int| 0 <= p < more.len() && #[trigger] more[p] == MergeOp::MergeRight implies {
        let before = more.take(p);
        &&& emitted(before) > 0
        &&& taken_right(before) < right.len()
        &&& equiv(drop_merged(left, right, before).last(), right[taken_right(before) as int])
    } by {
        if p < ops.len() {
            assert(more.take(p) =~= ops.take(p));
            assert(ops[p] == MergeOp::MergeRight);
        } else {
            assert(more.take(p) =~= ops);
        }
    }
}

/// Appending an op to a stream adds what it consumes and produces.
pub proof fn lemma_ops_push(ops: Seq<MergeOp>, op: MergeOp)
    ensures
        taken_left(ops.push(op)) == taken_left(ops) + if op == MergeOp::TakeLeft {
            1nat
        } else {
            0nat
        },
        taken_right(ops.push(op)) == taken_right(ops) + if op == MergeOp::TakeLeft {
            0nat
        } else {
            1nat
        },
        emitted(ops.push(op)) == emitted(ops) + if op == MergeOp::MergeRight {
            0nat
        } else {
            1nat
        },
{
    assert(ops.push(op).drop_last() =~= ops);
}

/// Replaying a stream with one more op.
pub proof fn lemma_drop_merged_push<T>(left: Seq<T>, right: Seq<T>, ops: Seq<MergeOp>, op: MergeOp)
    ensures
        drop_merged(left, right, ops.push(op)) == match op {
            MergeOp::TakeLeft => drop_merged(left, right, ops).push(left[taken_left(ops) as int]),
            MergeOp::TakeRight => drop_merged(left, right, ops).push(
                right[taken_right(ops) as int],
            ),
            MergeOp::MergeRight => drop_merged(left, right, ops),
        },
{
    assert(ops.push(op).drop_last() =~= ops);
}

/// Merges two key columns that are sorted in the order `C`: the output holds
/// every key once, and the ops stream says for every input row whether it
/// opened a new output row or was folded into the last one.
#[verifier::rlimit(60)]
pub fn merge_deduplicate<T: VecData, C: Comparator<T>>(left: &[T], right: &[T]) -> (merged: (
    Vec<T>,
    Vec<MergeOp>,
))
    ensures
        merged.1@ == dedup_ops::<T, C>(left@, right@, None),
        merged.0@ == drop_merged(left@, right@, merged.1@),
        merged.1@.len() == left@.len() + right@.len(),
        taken_left(merged.1@) == left@.len(),
        taken_right(merged.1@) == right@.len(),
        emitted(merged.1@) == merged.0@.len(),
        merged_count(merged.1@) == left@.len() + right@.len() - merged.0@.len(),
        merged.1@.len() > 0 ==> merged.1@[0] != MergeOp::MergeRight,
        strictly_sorted_by::<T, C>(left@) && strictly_sorted_by::<T, C>(right@)
            ==> strictly_sorted_by::<T, C>(merged.0@),
        sorted_by::<T, C>(left@) && sorted_by::<T, C>(right@) ==> sorted_by::<T, C>(merged.0@)
            && sorted_by::<T, C>(consumed(left@, right@, merged.1@)),
        covers(merged.0@, left@, right@, left@.len() as int, right@.len() as int),
        folds_match(left@, right@, merged.1@),
        strictly_sorted_by::<T, C>(left@) && strictly_sorted_by::<T, C>(right@) ==> merged_count(
            merged.1@,
        ) == shared(left@, right@),
{
    let mut result: Vec<T> = Vec::new();
    let mut ops: Vec<MergeOp> = Vec::new();
    let ghost all = dedup_ops::<T, C>(left@, right@, None);
    let ghost strict = strictly_sorted_by::<T, C>(left@) && strictly_sorted_by::<T, C>(right@);
    let ghost sorted = sorted_by::<T, C>(left@) && sorted_by::<T, C>(right@);

    let mut i: usize = 0;
    let mut j: usize = 0;
    assert(left@.skip(0) =~= left@ && right@.skip(0) =~= right@);
    assert(ops@ + all =~= all);
    proof {
        lemma_walk_start(left@, right@);
        assert(result@ =~= Seq::<T>::empty() && ops@ =~= Seq::<MergeOp>::empty());
        assert(right@.take(0) =~= Seq::<T>::empty());
    }
    while i < left.len() && j < right.len()
        invariant
            i <= left@.len(),
            j <= right@.len(),
            all == dedup_ops::<T, C>(left@, right@, None),
            strict == (strictly_sorted_by::<T, C>(left@) && strictly_sorted_by::<T, C>(right@)),
            ops@ + dedup_ops::<T, C>(left@.skip(i as int), right@.skip(j as int), last_of(result@))
                == all,
            result@ == drop_merged(left@, right@, ops@),
            i == taken_left(ops@),
            j == taken_right(ops@),
            ops@.len() == i + j,
            result@.len() == emitted(ops@),
            ops@.len() > 0 ==> ops@[0] != MergeOp::MergeRight,
            strict ==> keys_ahead::<T, C>(result@, left@, right@, i as int, j as int),
            sorted == (sorted_by::<T, C>(left@) && sorted_by::<T, C>(right@)),
            covers(result@, left@, right@, i as int, j as int),
            folds_match(left@, right@, ops@),
            strict ==> i + j - result@.len() == shared(left@, right@.take(j as int)),
            sorted ==> rows_behind::<T, C>(result@, left@, right@, i as int, j as int),
            sorted ==> rows_behind::<T, C>(
                consumed(left@, right@, ops@),
                left@,
                right@,
                i as int,
                j as int,
            ),
        decreases left@.len() - i + right@.len() - j,
    {
        let ghost rest_left = left@.skip(i as int);
        let ghost rest_right = right@.skip(j as int);
        let ghost before = ops@;
        let ghost keys = result@;
        assert(rest_left[0] == left@[i as int] && rest_right[0] == right@[j as int]);
        assert(rest_left.drop_first() =~= left@.skip(i + 1));
        assert(rest_right.drop_first() =~= right@.skip(j + 1));
        if result.len() > 0 && result[result.len() - 1].same(right[j]) {
            proof {
                lemma_walk_fold(keys, before, left@, right@, i as int, j as int);
                lemma_ops_push(before, MergeOp::MergeRight);
                lemma_drop_merged_push(left@, right@, before, MergeOp::MergeRight);
                assert(before.push(MergeOp::MergeRight) + dedup_ops::<T, C>(
                    rest_left,
                    rest_right.drop_first(),
                    last_of(keys),
                ) =~= all);
                if strict {
                    lemma_fold_is_shared::<T, C>(keys, left@, right@, i as int, j as int);
                    lemma_keys_ahead_fold::<T, C>(keys, left@, right@, i as int, j as int);
                }
                if sorted {
                    lemma_consumed_push(left@, right@, before, MergeOp::MergeRight);
                    assert forall|k: int| i <= k < left@.len() implies C::before_or_equal(
                        right@[j as int],
                        #[trigger] left@[k],
                    ) by {
                        assert(C::before_or_equal(keys[keys.len() - 1], left@[k]));
                        lemma_direction_order::<T, C>(keys.last(), right@[j as int], left@[k]);
                        lemma_direction_order::<T, C>(right@[j as int], keys.last(), left@[k]);
                    }
                    lemma_rows_behind_right::<T, C>(
                        consumed(left@, right@, before),
                        left@,
                        right@,
                        i as int,
                        j as int,
                    );
                }
            }
            ops.push(MergeOp::MergeRight);
            j += 1;
        } else if C::not_after(left[i], right[j]) {
            proof {
                lemma_walk_take(keys, before, left@, right@, i as int, j as int, true);
                lemma_ops_push(before, MergeOp::TakeLeft);
                lemma_drop_merged_push(left@, right@, before, MergeOp::TakeLeft);
                assert(before.push(MergeOp::TakeLeft) + dedup_ops::<T, C>(
                    rest_left.drop_first(),
                    rest_right,
                    Some(left@[i as int]),
                ) =~= all);
                if strict {
                    lemma_keys_ahead_take_left::<T, C>(keys, left@, right@, i as int, j as int);
                }
                if sorted {
                    lemma_consumed_push(left@, right@, before, MergeOp::TakeLeft);
                    lemma_left_leads::<T, C>(left@, right@, i as int, j as int);
                    lemma_rows_behind_left::<T, C>(keys, left@, right@, i as int, j as int);
                    lemma_rows_behind_left::<T, C>(
                        consumed(left@, right@, before),
                        left@,
                        right@,
                        i as int,
                        j as int,
                    );
                }
            }
            result.push(left[i]);
            ops.push(MergeOp::TakeLeft);
            i += 1;
        } else {
            proof {
                lemma_walk_take(keys, before, left@, right@, i as int, j as int, false);
                lemma_ops_push(before, MergeOp::TakeRight);
                lemma_drop_merged_push(left@, right@, before, MergeOp::TakeRight);
                assert(before.push(MergeOp::TakeRight) + dedup_ops::<T, C>(
                    rest_left,
                    rest_right.drop_first(),
                    Some(right@[j as int]),
                ) =~= all);
                if strict {
                    lemma_take_is_not_shared::<T, C>(keys, left@, right@, i as int, j as int);
                    lemma_keys_ahead_take_right::<T, C>(keys, left@, right@, i as int, j as int);
                }
                if sorted {
                    lemma_consumed_push(left@, right@, before, MergeOp::TakeRight);
                    lemma_direction_order::<T, C>(left@[i as int], right@[j as int],
                        right@[j as int]);
                    lemma_right_leads::<T, C>(left@, right@, i as int, j as int);
                    lemma_rows_behind_right::<T, C>(keys, left@, right@, i as int, j as int);
                    lemma_rows_behind_right::<T, C>(
                        consumed(left@, right@, before),
                        left@,
                        right@,
                        i as int,
                        j as int,
                    );
                }
            }
            result.push(right[j]);
            ops.push(MergeOp::TakeRight);
            j += 1;
        }
    }

    while i < left.len()
        invariant
            i <= left@.len(),
            j <= right@.len(),
            i < left@.len() ==> j == right@.len(),
            strict == (strictly_sorted_by::<T, C>(left@) && strictly_sorted_by::<T, C>(right@)),
            ops@ + (if i < left@.len() {
                repeated(MergeOp::TakeLeft, (left@.len() - i) as nat)
            } else {
                dedup_ops::<T, C>(left@.skip(i as int), right@.skip(j as int), last_of(result@))
            }) == all,
            result@ == drop_merged(left@, right@, ops@),
            i == taken_left(ops@),
            j == taken_right(ops@),
            ops@.len() == i + j,
            result@.len() == emitted(ops@),
            ops@.len() > 0 ==> ops@[0] != MergeOp::MergeRight,
            strict ==> keys_ahead::<T, C>(result@, left@, right@, i as int, j as int),
            sorted == (sorted_by::<T, C>(left@) && sorted_by::<T, C>(right@)),
            covers(result@, left@, right@, i as int, j as int),
            folds_match(left@, right@, ops@),
            strict ==> i + j - result@.len() == shared(left@, right@.take(j as int)),
            sorted ==> rows_behind::<T, C>(result@, left@, right@, i as int, j as int),
            sorted ==> rows_behind::<T, C>(
                consumed(left@, right@, ops@),
                left@,
                right@,
                i as int,
                j as int,
            ),
        decreases left@.len() - i,
    {
        let ghost before = ops@;
        let ghost keys = result@;
        proof {
            lemma_walk_take(keys, before, left@, right@, i as int, j as int, true);
            lemma_ops_push(before, MergeOp::TakeLeft);
            lemma_drop_merged_push(left@, right@, before, MergeOp::TakeLeft);
            assert(left@.skip(i as int).len() > 0 && right@.skip(j as int).len() == 0);
            if i + 1 < left@.len() {
                assert(before.push(MergeOp::TakeLeft) + repeated(
                    MergeOp::TakeLeft,
                    (left@.len() - i - 1) as nat,
                ) =~= before + repeated(MergeOp::TakeLeft, (left@.len() - i) as nat));
            } else {
                assert(left@.skip(i + 1).len() == 0);
                assert(before.push(MergeOp::TakeLeft) + dedup_ops::<T, C>(
                    left@.skip(i + 1),
                    right@.skip(j as int),
                    Some(left@[i as int]),
                ) =~= before + repeated(MergeOp::TakeLeft, (left@.len() - i) as nat));
            }
            if strict {
                lemma_keys_ahead_take_left::<T, C>(keys, left@, right@, i as int, j as int);
            }
            if sorted {
                lemma_consumed_push(left@, right@, before, MergeOp::TakeLeft);
                lemma_rows_behind_left::<T, C>(keys, left@, right@, i as int, j as int);
                lemma_rows_behind_left::<T, C>(
                    consumed(left@, right@, before),
                    left@,
                    right@,
                    i as int,
                    j as int,
                );
            }
        }
        result.push(left[i]);
        ops.push(MergeOp::TakeLeft);
        i += 1;
    }
    assert(left@.skip(i as int).len() == 0);
    let ghost tail_start = j;
    if j < right.len() && result.len() > 0 && result[result.len() - 1].same(right[j]) {
        proof {
            lemma_walk_fold(result@, ops@, left@, right@, i as int, j as int);
            lemma_ops_push(ops@, MergeOp::MergeRight);
            lemma_drop_merged_push(left@, right@, ops@, MergeOp::MergeRight);
            assert(right@.skip(j as int)[0] == right@[j as int]);
            if strict {
                lemma_fold_is_shared::<T, C>(result@, left@, right@, i as int, j as int);
                lemma_keys_ahead_fold::<T, C>(result@, left@, right@, i as int, j as int);
            }
            if sorted {
                lemma_consumed_push(left@, right@, ops@, MergeOp::MergeRight);
                lemma_rows_behind_right::<T, C>(
                    consumed(left@, right@, ops@),
                    left@,
                    right@,
                    i as int,
                    j as int,
                );
            }
        }
        ops.push(MergeOp::MergeRight);
        j += 1;
    } else {
        proof {
            if j < right@.len() {
                assert(right@.skip(j as int)[0] == right@[j as int]);
                if strict && result@.len() > 0 {
                    assert(C::before_or_equal(result@.last(), right@[j as int]));
                    lemma_direction_order::<T, C>(
                        result@.last(),
                        right@[j as int],
                        right@[j as int],
                    );
                }
            }
        }
    }
    assert(ops@ + repeated(MergeOp::TakeRight, (right@.len() - j) as nat) =~= all);
    while j < right.len()
        invariant
            i == left@.len(),
            j <= right@.len(),
            strict == (strictly_sorted_by::<T, C>(left@) && strictly_sorted_by::<T, C>(right@)),
            ops@ + repeated(MergeOp::TakeRight, (right@.len() - j) as nat) == all,
            result@ == drop_merged(left@, right@, ops@),
            i == taken_left(ops@),
            j == taken_right(ops@),
            ops@.len() == i + j,
            result@.len() == emitted(ops@),
            ops@.len() > 0 ==> ops@[0] != MergeOp::MergeRight,
            strict ==> keys_ahead::<T, C>(result@, left@, right@, i as int, j as int),
            sorted == (sorted_by::<T, C>(left@) && sorted_by::<T, C>(right@)),
            covers(result@, left@, right@, i as int, j as int),
            folds_match(left@, right@, ops@),
            strict ==> i + j - result@.len() == shared(left@, right@.take(j as int)),
            sorted ==> rows_behind::<T, C>(result@, left@, right@, i as int, j as int),
            sorted ==> rows_behind::<T, C>(
                consumed(left@, right@, ops@),
                left@,
                right@,
                i as int,
                j as int,
            ),
            strict && j < right@.len() && result@.len() > 0 ==> C::before(
                result@.last(),
                right@[j as int],
            ),
        decreases right@.len() - j,
    {
        let ghost before = ops@;
        let ghost keys = result@;
        proof {
            lemma_walk_take(keys, before, left@, right@, i as int, j as int, false);
            lemma_ops_push(before, MergeOp::TakeRight);
            lemma_drop_merged_push(left@, right@, before, MergeOp::TakeRight);
            assert(before.push(MergeOp::TakeRight) + repeated(
                MergeOp::TakeRight,
                (right@.len() - j - 1) as nat,
            ) =~= before + repeated(MergeOp::TakeRight, (right@.len() - j) as nat));
            if strict {
                if keys.len() > 0 {
                    lemma_direction_order::<T, C>(keys.last(), right@[j as int], right@[j as int]);
                }
                lemma_take_is_not_shared::<T, C>(keys, left@, right@, i as int, j as int);
                lemma_keys_ahead_take_right::<T, C>(keys, left@, right@, i as int, j as int);
            }
            if sorted {
                lemma_consumed_push(left@, right@, before, MergeOp::TakeRight);
                lemma_rows_behind_right::<T, C>(keys, left@, right@, i as int, j as int);
                lemma_rows_behind_right::<T, C>(
                    consumed(left@, right@, before),
                    left@,
                    right@,
                    i as int,
                    j as int,
                );
            }
        }
        result.push(right[j]);
        ops.push(MergeOp::TakeRight);
        j += 1;
    }
    proof {
        assert(ops@ =~= all);
        lemma_ops_counts(ops@);
        assert(right@.take(j as int) =~= right@);
        assert(left@.take(i as int) =~= left@);
    }
    (result, ops)
}

} // verus!
