//! Merging two sorted columns into one sorted column.

use vstd::prelude::*;

use crate::engine::batch_merging::{left_first, merge_choices, merge_sort, merged};
use std::marker::PhantomData;

use crate::engine::comparator::Comparator;
use crate::engine::operators::merge_deduplicate::sorted_by;
use crate::engine::scratchpad::{
    format_operator, operator_text, BufferRef, Scratchpad, SlotView, VecOperator, VecType,
};
use crate::engine::types::ColumnView;
use crate::engine::vec_data::VecData;
use crate::errors::QueryError;

verus! {

/// Merges the sorted columns in the buffers `left` and `right` into one
/// sorted column of at most `limit` rows in the buffer `merged`, and records
/// in `merge_ops` which input every row is from.
#[derive(Debug)]
pub struct Merge<T, C> {
    pub left: BufferRef<T>,
    pub right: BufferRef<T>,
    pub merged: BufferRef<T>,
    pub merge_ops: BufferRef<u8>,
    pub limit: usize,
    pub c: PhantomData<C>,
}

impl<'a, T: VecData + VecType<'a>, C: Comparator<T>> VecOperator<'a> for Merge<T, C> {
    fn execute(&mut self, stream: bool, scratchpad: &mut Scratchpad<'a>) -> (res: Result<
        (),
        QueryError,
    >)
        ensures
            *final(self) == *old(self),
            res is Ok <==> placed(
                old(scratchpad)@,
                T::elements(old(scratchpad)@[old(self).left.i as int]),
                T::elements(old(scratchpad)@[old(self).right.i as int]),
                old(self).left.i,
                old(self).right.i,
                old(self).merged.i,
                old(self).merge_ops.i,
            ),
            res is Ok ==> {
                let left = T::elements(old(scratchpad)@[old(self).left.i as int]);
                let right = T::elements(old(scratchpad)@[old(self).right.i as int]);
                let choices = merge_choices::<T, C>(left->0, right->0, old(self).limit as nat);
                &&& left is Some
                &&& right is Some
                &&& final(scratchpad)@ == old(scratchpad)@.update(
                    old(self).merged.i as int,
                    T::slot_of(merged(left->0, right->0, choices)),
                ).update(
                    old(self).merge_ops.i as int,
                    SlotView::Column(ColumnView::U8(choices.map_values(|c: bool| choice_byte(c)))),
                )
            },
            res is Err ==> final(scratchpad)@ == old(scratchpad)@,
            res is Err ==> res->Err_0 is TypeError,
    {
        if self.merged.i >= scratchpad.len() || self.merge_ops.i >= scratchpad.len() {
            return Err(QueryError::TypeError("Output buffer is missing".to_owned()));
        }
        let (merged, ops) = {
            let left = scratchpad.get(&self.left)?;
            let right = scratchpad.get(&self.right)?;
            merge::<_, C>(left, right, self.limit)
        };
        scratchpad.set(&self.merged, merged);
        scratchpad.set(&self.merge_ops, ops);
        Ok(())
    }

    fn init(&mut self, total_count: usize, batch_size: usize, scratchpad: &mut Scratchpad<'a>)
        ensures
            *final(self) == *old(self),
            final(scratchpad)@ == old(scratchpad)@,
    {
    }

    open spec fn input_positions(&self) -> Seq<usize> {
        seq![self.left.i, self.right.i]
    }

    open spec fn output_positions(&self) -> Seq<usize> {
        seq![self.merged.i, self.merge_ops.i]
    }

    fn inputs(&self) -> (positions: Vec<usize>) {
        vec![self.left.any(), self.right.any()]
    }

    fn outputs(&self) -> (positions: Vec<usize>) {
        vec![self.merged.any(), self.merge_ops.any()]
    }

    fn can_stream_input(&self, i: usize) -> (streams: bool)
        ensures
            !streams,
    {
        false
    }

    fn can_stream_output(&self, i: usize) -> (streams: bool)
        ensures
            !streams,
    {
        false
    }

    fn can_block_output(&self) -> (blocks: bool)
        ensures
            !blocks,
    {
        false
    }

    fn allocates(&self) -> (allocates: bool)
        ensures
            allocates,
    {
        true
    }

    fn display_op(&self, alternate: bool) -> (text: String)
        ensures
            text@ == operator_text("merge"@, self.input_positions()),
    {
        format_operator("merge", self.inputs().as_slice())
    }
}

/// A merge finds what it needs: all four buffers exist, and the inputs hold
/// columns of the type of the merge.
pub open spec fn placed<'a, T>(
    scratchpad: Seq<SlotView<'a>>,
    left_rows: Option<Seq<T>>,
    right_rows: Option<Seq<T>>,
    left: usize,
    right: usize,
    merged: usize,
    merge_ops: usize,
) -> bool {
    &&& left < scratchpad.len()
    &&& right < scratchpad.len()
    &&& merged < scratchpad.len()
    &&& merge_ops < scratchpad.len()
    &&& left_rows is Some
    &&& right_rows is Some
}

/// A choice as a byte: 1 for the left input, 0 for the right.
pub open spec fn choice_byte(take_left: bool) -> u8 {
    if take_left {
        1
    } else {
        0
    }
}

/// Merges two columns that are sorted in the order `C` into one sorted column
/// of at most `limit` rows. Of rows that are equal in the order the left ones
/// come first. The ops hold a 1 for every output row taken from `left` and a
/// 0 for every row taken from `right`.
pub fn merge<T: VecData, C: Comparator<T>>(left: &[T], right: &[T], limit: usize) -> (sorted: (
    Vec<T>,
    Vec<u8>,
))
    ensures
        sorted.1@ == merge_choices::<T, C>(left@, right@, limit as nat).map_values(
            |c: bool| choice_byte(c),
        ),
        sorted.0@ == merged(left@, right@, merge_choices::<T, C>(left@, right@, limit as nat)),
        sorted.0@.len() == sorted.1@.len(),
        sorted.0@.len() == if left@.len() + right@.len() < limit {
            left@.len() + right@.len()
        } else {
            limit as nat
        },
        sorted_by::<T, C>(left@) && sorted_by::<T, C>(right@) ==> sorted_by::<T, C>(sorted.0@)
            && left_first::<T, C>(
            sorted.0@,
            merge_choices::<T, C>(left@, right@, limit as nat),
        ),
{
    let (result, choices) = merge_sort::<T, C>(left, right, limit);
    let mut ops: Vec<u8> = Vec::with_capacity(choices.len());
    let mut k: usize = 0;
    while k < choices.len()
        invariant
            k <= choices@.len(),
            ops@ == choices@.take(k as int).map_values(|c: bool| choice_byte(c)),
        decreases choices@.len() - k,
    {
        ops.push(if choices[k] {
            1
        } else {
            0
        });
        assert(ops@ =~= choices@.take(k + 1).map_values(|c: bool| choice_byte(c)));
        k += 1;
    }
    assert(choices@.take(k as int) =~= choices@);
    (result, ops)
}

} // verus!
