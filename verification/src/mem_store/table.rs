//! Tables: an open buffer of new rows and the partitions sealed so far.

use std::sync::Arc;

use vstd::prelude::*;

use crate::ingest::buffer::{
    batch_len, columns_of, filtered, requested, row_entries, typed_entries, untyped_entries,
    with_batch, with_row, Buffer,
};
use crate::ingest::input_column::InputColumn;
use crate::ingest::raw_val::{RawVal, Value};
use crate::mem_store::column::Column;
use crate::mem_store::lru::{ColumnLocator, PartitionID};
use crate::mem_store::partition::{
    dropped, loaded, resident_bytes, same_partition, saturating_sum, ColumnHandle, Partition,
};
use crate::engine::vec_data::same_text;
use crate::errors::QueryError;
use crate::mem_store::raw_col::{saturated, MixedCol};

verus! {

/// A table: its name, the rows that wait to be sealed, and its partitions
/// in the order of their rows.
#[derive(Debug)]
pub struct Table {
    pub name: String,
    /// The open write set.
    pub buffer: Buffer,
    /// A write set that has been closed and waits to become a partition.
    pub frozen_buffer: Option<Buffer>,
    pub partitions: Vec<Partition>,
    pub next_partition_id: PartitionID,
}

/// Number of rows in the partitions.
pub open spec fn sealed_rows(partitions: Seq<Partition>) -> nat
    decreases partitions.len(),
{
    if partitions.len() == 0 {
        0
    } else {
        sealed_rows(partitions.drop_last()) + partitions.last().len as nat
    }
}

/// The position behind the last row of the partitions.
pub open spec fn end_offset(partitions: Seq<Partition>) -> nat {
    if partitions.len() == 0 {
        0
    } else {
        (partitions.last().offset + partitions.last().len) as nat
    }
}

/// The number of digits of `len` to the base `factor`, less one: partitions
/// of one size class differ in size by less than the factor.
pub open spec fn size_class(len: nat, factor: nat) -> nat
    decreases len,
{
    if factor < 2 || len < factor || len / factor >= len {
        0
    } else {
        1 + size_class(len / factor, factor)
    }
}

/// `factor` partitions from position `start` on are of one size class.
pub open spec fn run_at(partitions: Seq<Partition>, start: int, factor: nat) -> bool {
    &&& factor >= 2
    &&& 0 <= start
    &&& start + factor <= partitions.len()
    &&& forall|k: int|
        start <= k < start + factor ==> size_class(
            (#[trigger] partitions[k]).len as nat,
            factor,
        ) == size_class(partitions[start].len as nat, factor)
}

/// `start` is the first position from which on `factor` partitions are of
/// one size class.
pub open spec fn first_run(partitions: Seq<Partition>, start: int, factor: nat) -> bool {
    &&& run_at(partitions, start, factor)
    &&& forall|earlier: int| 0 <= earlier < start ==> !run_at(partitions, earlier, factor)
}

/// The partition is one that is on disk: it has the id `id`, holds `len`
/// rows from row `offset` on, and has columns of the names `names`, none of
/// them in memory.
pub open spec fn on_disk(
    partition: Partition,
    id: PartitionID,
    offset: usize,
    len: usize,
    names: Seq<Seq<char>>,
) -> bool {
    &&& partition.id == id
    &&& partition.offset == offset
    &&& partition.len == len
    &&& partition.columns@.len() == names.len()
    &&& forall|c: int|
        0 <= c < names.len() ==> {
            &&& (#[trigger] partition.columns@[c]).name@ == names[c]
            &&& partition.columns@[c].column is None
            &&& partition.columns@[c].size_bytes == 0
        }
}

/// One of the partitions has the id `id` and a column of the name `name`.
pub open spec fn has_column(partitions: Seq<Partition>, id: PartitionID, name: Seq<char>) -> bool {
    exists|p: int, c: int|
        0 <= p < partitions.len() && 0 <= c < partitions[p].columns@.len() && (
        #[trigger] partitions[p]).id == id && (#[trigger] partitions[p].columns@[c]).name@ == name
}

/// The ids of the partitions.
pub open spec fn ids_of(partitions: Seq<Partition>) -> Seq<PartitionID> {
    partitions.map_values(|p: Partition| p.id)
}

/// The partitions from position `start` on have the ids `parts`.
pub open spec fn ids_at(partitions: Seq<Partition>, start: int, parts: Seq<PartitionID>) -> bool {
    &&& 0 <= start
    &&& start + parts.len() <= partitions.len()
    &&& ids_of(partitions.subrange(start, start + parts.len())) == parts
}

/// Computes the size class of a partition of `len` rows.
pub fn class_of(len: usize, factor: usize) -> (class: usize)
    ensures
        class == size_class(len as nat, factor as nat),
{
    if factor < 2 {
        return 0;
    }
    let mut rest: usize = len;
    let mut class: usize = 0;
    while rest >= factor
        invariant
            factor >= 2,
            class + size_class(rest as nat, factor as nat) == size_class(len as nat, factor as nat),
            class + rest <= len,
        decreases rest,
    {
        assert(rest / factor < rest) by (nonlinear_arith)
            requires
                rest >= factor,
                factor >= 2,
        ;
        rest = rest / factor;
        class += 1;
    }
    class
}

impl Table {
    /// The buffers hold their columns under distinct names, every column
    /// with as many values as the buffer has rows; the partitions are well
    /// formed and end within the range of row positions, and their ids are
    /// below the next id.
    pub open spec fn wf(&self) -> bool {
        &&& self.buffer.wf()
        &&& self.frozen_buffer is Some ==> self.frozen_buffer->0.wf()
        &&& forall|i: int| 0 <= i < self.partitions@.len() ==> (#[trigger] self.partitions@[i]).wf()
        &&& forall|i: int|
            0 <= i < self.partitions@.len() ==> (#[trigger] self.partitions@[i]).offset
                + self.partitions@[i].len <= usize::MAX
        &&& forall|i: int|
            0 <= i < self.partitions@.len() ==> (#[trigger] self.partitions@[i]).id
                < self.next_partition_id
    }

    /// Number of rows of the table: those in the partitions and those that
    /// wait to be sealed.
    pub open spec fn row_count(&self) -> nat {
        sealed_rows(self.partitions@) + self.buffer.length as nat + match self.frozen_buffer {
            Some(frozen) => frozen.length as nat,
            None => 0,
        }
    }

    /// A table without rows.
    pub fn new(name: &str) -> (table: Table)
        ensures
            table.wf(),
            table.name@ == name@,
            table.buffer.wf(),
            table.buffer.length == 0,
            table.buffer.columns() == Map::<Seq<char>, Seq<Value>>::empty(),
            table.frozen_buffer is None,
            table.partitions@.len() == 0,
            table.next_partition_id == 0,
            table.row_count() == 0,
    {
        Table {
            name: name.to_owned(),
            buffer: Buffer::new(),
            frozen_buffer: None,
            partitions: Vec::new(),
            next_partition_id: 0,
        }
    }

    /// The name of the table.
    pub fn name(&self) -> (name: &str)
        ensures
            name@ == self.name@,
    {
        self.name.as_str()
    }

    /// Appends one row to the open buffer.
    pub fn ingest(&mut self, row: Vec<(String, RawVal)>)
        requires
            old(self).wf(),
            old(self).buffer.length < usize::MAX,
        ensures
            final(self).wf(),
            final(self).name == old(self).name,
            final(self).frozen_buffer == old(self).frozen_buffer,
            final(self).partitions == old(self).partitions,
            final(self).next_partition_id == old(self).next_partition_id,
            final(self).buffer.length == old(self).buffer.length + 1,
            final(self).buffer.columns() == with_row(
                old(self).buffer.columns(),
                old(self).buffer.length as nat,
                row_entries(row@),
            ),
            old(self).buffer.aligned() ==> final(self).buffer.aligned(),
            final(self).row_count() == old(self).row_count() + 1,
    {
        self.buffer.push_row(row);
    }

    /// Appends a batch of rows, given as typed columns, to the open buffer.
    pub fn ingest_homogeneous(&mut self, columns: Vec<(String, InputColumn)>)
        requires
            old(self).wf(),
            forall|i: int| 0 <= i < columns@.len() ==> (#[trigger] columns@[i]).1.wf(),
        ensures
            final(self).wf(),
            final(self).name == old(self).name,
            final(self).frozen_buffer == old(self).frozen_buffer,
            final(self).partitions == old(self).partitions,
            final(self).next_partition_id == old(self).next_partition_id,
            final(self).buffer.columns() == with_batch(
                old(self).buffer.columns(),
                old(self).buffer.length as nat,
                typed_entries(columns@),
            ),
            final(self).buffer.length == batch_len(
                old(self).buffer.columns(),
                old(self).buffer.length as nat,
                typed_entries(columns@),
            ),
            old(self).buffer.aligned() ==> final(self).buffer.aligned(),
    {
        self.buffer.push_typed_cols(columns);
    }

    /// Appends a batch of rows, given as untyped columns, to the open buffer.
    pub fn ingest_heterogeneous(&mut self, columns: Vec<(String, Vec<RawVal>)>)
        requires
            old(self).wf(),
        ensures
            final(self).wf(),
            final(self).name == old(self).name,
            final(self).frozen_buffer == old(self).frozen_buffer,
            final(self).partitions == old(self).partitions,
            final(self).next_partition_id == old(self).next_partition_id,
            final(self).buffer.columns() == with_batch(
                old(self).buffer.columns(),
                old(self).buffer.length as nat,
                untyped_entries(columns@),
            ),
            final(self).buffer.length == batch_len(
                old(self).buffer.columns(),
                old(self).buffer.length as nat,
                untyped_entries(columns@),
            ),
            old(self).buffer.aligned() ==> final(self).buffer.aligned(),
    {
        self.buffer.push_untyped_cols(columns);
    }

    /// Closes the open buffer, so that it can become a partition, and opens
    /// an empty one. Does nothing while an earlier closed buffer still waits
    /// or while the open buffer has no rows.
    pub fn freeze_buffer(&mut self)
        requires
            old(self).wf(),
        ensures
            final(self).wf(),
            final(self).name == old(self).name,
            final(self).partitions == old(self).partitions,
            final(self).next_partition_id == old(self).next_partition_id,
            final(self).row_count() == old(self).row_count(),
            if old(self).frozen_buffer is None && old(self).buffer.length > 0 {
                &&& final(self).frozen_buffer == Some(old(self).buffer)
                &&& final(self).buffer.length == 0
                &&& final(self).buffer.columns() == Map::<Seq<char>, Seq<Value>>::empty()
                &&& final(self).buffer.wf()
            } else {
                &&& final(self).frozen_buffer == old(self).frozen_buffer
                &&& final(self).buffer == old(self).buffer
            },
    {
        if self.frozen_buffer.is_none() && self.buffer.len() > 0 {
            let mut buffer = Buffer::new();
            core::mem::swap(&mut buffer, &mut self.buffer);
            self.frozen_buffer = Some(buffer);
        }
    }

    /// Hands out an id for a new partition.
    pub fn next_partition_id(&mut self) -> (id: PartitionID)
        requires
            old(self).wf(),
            old(self).next_partition_id < u64::MAX,
        ensures
            final(self).wf(),
            id == old(self).next_partition_id,
            final(self).next_partition_id == id + 1,
            final(self).name == old(self).name,
            final(self).buffer == old(self).buffer,
            final(self).frozen_buffer == old(self).frozen_buffer,
            final(self).partitions == old(self).partitions,
    {
        let id = self.next_partition_id;
        self.next_partition_id = id + 1;
        id
    }

    /// The first run of `combine_factor` partitions of one size class, if
    /// there is one: the rows that the run covers and the ids of its partitions.
    pub fn plan_compaction(&self, combine_factor: u64) -> (plan: Option<
        ((usize, usize), Vec<PartitionID>),
    >)
        requires
            self.wf(),
        ensures
            match plan {
                Some((range, parts)) => exists|start: int|
                    {
                        &&& #[trigger] first_run(self.partitions@, start, combine_factor as nat)
                        &&& range.0 == self.partitions@[start].offset
                        &&& range.1 == end_offset(
                            self.partitions@.take(start + combine_factor),
                        )
                        &&& parts@ == ids_of(
                            self.partitions@.subrange(start, start + combine_factor),
                        )
                    },
                None => forall|start: int|
                    0 <= start ==> !run_at(self.partitions@, start, combine_factor as nat),
            },
    {
        if combine_factor < 2 || combine_factor > self.partitions.len() as u64 {
            return None;
        }
        let factor = combine_factor as usize;
        let mut start: usize = 0;
        while start <= self.partitions.len() - factor
            invariant
                2 <= factor <= self.partitions@.len(),
                factor == combine_factor,
                self.wf(),
                forall|earlier: int|
                    0 <= earlier < start ==> !run_at(self.partitions@, earlier, factor as nat),
            decreases self.partitions@.len() - start,
        {
            let class = class_of(self.partitions[start].len, factor);
            let end = start + factor;
            let mut k: usize = start + 1;
            let mut same = true;
            while same && k < end
                invariant
                    end == start + factor,
                    start < k <= start + factor <= self.partitions@.len(),
                    class == size_class(self.partitions@[start as int].len as nat, factor as nat),
                    same ==> forall|j: int|
                        start <= j < k ==> size_class(
                            (#[trigger] self.partitions@[j]).len as nat,
                            factor as nat,
                        ) == class,
                    !same ==> !run_at(self.partitions@, start as int, factor as nat),
                decreases start + factor - k + if same {
                    1int
                } else {
                    0int
                },
            {
                if class_of(self.partitions[k].len, factor) != class {
                    same = false;
                } else {
                    k += 1;
                }
            }
            if same {
                let mut parts: Vec<PartitionID> = Vec::with_capacity(factor);
                let mut j: usize = start;
                let ghost run = self.partitions@.subrange(start as int, start + factor);
                while j < end
                    invariant
                        end == start + factor,
                        start <= j <= start + factor <= self.partitions@.len(),
                        run == self.partitions@.subrange(start as int, start + factor),
                        parts@ == ids_of(run.take(j - start)),
                    decreases start + factor - j,
                {
                    parts.push(self.partitions[j].id);
                    assert(parts@ =~= ids_of(run.take(j + 1 - start)));
                    j += 1;
                }
                assert(run.take(factor as int) =~= run);
                let last = start + factor - 1;
                let range = (
                    self.partitions[start].offset,
                    self.partitions[last].offset + self.partitions[last].len,
                );
                assert(self.partitions@.take(start + factor).last() == self.partitions@[last as int]);
                assert(first_run(self.partitions@, start as int, combine_factor as nat));
                return Some((range, parts));
            }
            start += 1;
        }
        None
    }
}

/// The closed buffer of the table cannot become a partition: its rows end
/// beyond the range of row positions, or the ids of partitions are used up.
pub open spec fn overfull(table: Table) -> bool {
    &&& table.frozen_buffer is Some
    &&& (end_offset(table.partitions@) + table.frozen_buffer->0.length > usize::MAX
        || table.next_partition_id == u64::MAX)
}

/// The partition holds the rows of the buffer: one column in memory for
/// every column of the buffer, under the same name and with the same values.
pub open spec fn seals(partition: Partition, buffer: Buffer) -> bool {
    &&& partition.len == buffer.length
    &&& partition.columns@.len() == buffer.buffer@.len()
    &&& forall|i: int|
        0 <= i < buffer.buffer@.len() ==> {
            &&& (#[trigger] partition.columns@[i]).name@ == buffer.buffer@[i].0@
            &&& partition.columns@[i].column is Some
            &&& partition.columns@[i].column->0.values() == buffer.buffer@[i].1@
        }
}

/// The bytes of the columns of the partitions that are in memory.
pub open spec fn resident_total(partitions: Seq<Partition>) -> nat
    decreases partitions.len(),
{
    if partitions.len() == 0 {
        0
    } else {
        resident_total(partitions.drop_last()) + resident_bytes(partitions.last().columns@)
    }
}

/// Adding a partition adds its rows.
pub proof fn lemma_sealed_rows_push(partitions: Seq<Partition>, partition: Partition)
    ensures
        sealed_rows(partitions.push(partition)) == sealed_rows(partitions) + partition.len,
{
    assert(partitions.push(partition).drop_last() =~= partitions);
}

/// Two lists of partitions hold the rows of both together.
pub proof fn lemma_sealed_rows_concat(a: Seq<Partition>, b: Seq<Partition>)
    ensures
        sealed_rows(a + b) == sealed_rows(a) + sealed_rows(b),
    decreases b.len(),
{
    if b.len() == 0 {
        assert(a + b =~= a);
    } else {
        assert((a + b).drop_last() =~= a + b.drop_last());
        lemma_sealed_rows_concat(a, b.drop_last());
    }
}

/// Replacing the `count` partitions from position `start` on by one
/// partition replaces their rows by its rows.
pub proof fn lemma_sealed_rows_replaced(
    before: Seq<Partition>,
    after: Seq<Partition>,
    start: int,
    count: int,
)
    requires
        0 <= start,
        0 <= count,
        start + count <= before.len(),
        after.len() == before.len() - count + 1,
        after.take(start) == before.take(start),
        after.skip(start + 1) == before.skip(start + count),
    ensures
        sealed_rows(after) + sealed_rows(before.subrange(start, start + count)) == sealed_rows(
            before,
        ) + after[start].len,
{
    let head = before.take(start);
    let run = before.subrange(start, start + count);
    let tail = before.skip(start + count);
    let one = seq![after[start]];
    assert(before =~= head + run + tail);
    assert(after =~= after.take(start) + one + after.skip(start + 1));
    lemma_sealed_rows_concat(head, run);
    lemma_sealed_rows_concat(head + run, tail);
    lemma_sealed_rows_concat(head, one);
    lemma_sealed_rows_concat(head + one, tail);
    assert(one.drop_last() =~= Seq::<Partition>::empty());
    assert(sealed_rows(one) == after[start].len) by {
        assert(one.last() == after[start]);
        assert(sealed_rows(one.drop_last()) == 0);
    }
}

/// Every partition starts where the one before it ends, the first at row 0.
pub open spec fn contiguous(partitions: Seq<Partition>) -> bool {
    forall|i: int|
        0 <= i < partitions.len() ==> (#[trigger] partitions[i]).offset == sealed_rows(
            partitions.take(i),
        )
}

/// Sealing keeps the partitions contiguous: a partition that starts behind
/// the last row of contiguous partitions continues them.
pub proof fn lemma_contiguous_push(partitions: Seq<Partition>, partition: Partition)
    requires
        contiguous(partitions),
        partition.offset == end_offset(partitions),
    ensures
        contiguous(partitions.push(partition)),
        end_offset(partitions) == sealed_rows(partitions),
{
    let longer = partitions.push(partition);
    if partitions.len() > 0 {
        assert(partitions.take(partitions.len() - 1) =~= partitions.drop_last());
    }
    assert forall|i: int| 0 <= i < longer.len() implies (#[trigger] longer[i]).offset
        == sealed_rows(longer.take(i)) by {
        if i < partitions.len() {
            assert(longer.take(i) =~= partitions.take(i));
        } else {
            assert(longer.take(i) =~= partitions);
        }
    }
}

/// A planned compaction covers the rows of its partitions: in contiguous
/// partitions, a run of partitions reaches from the position of its first
/// row over as many rows as its partitions hold.
pub proof fn lemma_run_rows(partitions: Seq<Partition>, start: int, count: int)
    requires
        contiguous(partitions),
        0 <= start,
        0 < count,
        start + count <= partitions.len(),
    ensures
        end_offset(partitions.take(start + count)) == partitions[start].offset + sealed_rows(
            partitions.subrange(start, start + count),
        ),
{
    let upto = partitions.take(start + count);
    assert(upto =~= partitions.take(start) + partitions.subrange(start, start + count));
    lemma_sealed_rows_concat(partitions.take(start), partitions.subrange(start, start + count));
    assert(upto.drop_last() =~= partitions.take(start + count - 1));
    assert(upto.last() == partitions[start + count - 1]);
}

/// Compaction keeps the rows: where a run of contiguous partitions is
/// replaced by one partition that starts where the run starts and holds as
/// many rows as the run, the partitions stay contiguous and hold as many
/// rows as before.
pub proof fn lemma_contiguous_replaced(
    before: Seq<Partition>,
    after: Seq<Partition>,
    start: int,
    count: int,
)
    requires
        contiguous(before),
        0 <= start,
        0 < count,
        start + count <= before.len(),
        after.len() == before.len() - count + 1,
        after.take(start) == before.take(start),
        after.skip(start + 1) == before.skip(start + count),
        after[start].offset == before[start].offset,
        after[start].len == sealed_rows(before.subrange(start, start + count)),
    ensures
        contiguous(after),
        sealed_rows(after) == sealed_rows(before),
{
    lemma_sealed_rows_replaced(before, after, start, count);
    assert forall|i: int| 0 <= i < after.len() implies (#[trigger] after[i]).offset == sealed_rows(
        after.take(i),
    ) by {
        if i < start {
            lemma_kept_front(before, after, start, i);
        } else if i == start {
            assert(after.take(start) == before.take(start));
        } else {
            lemma_replaced_front(before, after, start, count, i);
            lemma_kept_back(before, after, start, count, i);
        }
    }
}

/// A partition ahead of the run stands where it stood, behind the same partitions.
proof fn lemma_kept_front(before: Seq<Partition>, after: Seq<Partition>, start: int, i: int)
    requires
        0 <= i < start <= before.len(),
        start <= after.len(),
        after.take(start) == before.take(start),
    ensures
        after[i] == before[i],
        after.take(i) == before.take(i),
{
    assert(after[i] == after.take(start)[i]);
    assert(before[i] == before.take(start)[i]);
    assert(after.take(i) =~= after.take(start).take(i));
    assert(before.take(i) =~= before.take(start).take(i));
}

/// A partition behind the run is the partition that stood `count - 1` places further on.
proof fn lemma_kept_back(
    before: Seq<Partition>,
    after: Seq<Partition>,
    start: int,
    count: int,
    i: int,
)
    requires
        0 <= start < i < after.len(),
        0 < count,
        after.len() == before.len() - count + 1,
        after.skip(start + 1) == before.skip(start + count),
    ensures
        after[i] == before[i + count - 1],
{
    assert(after[i] == after.skip(start + 1)[i - start - 1]);
    assert(before[i + count - 1] == before.skip(start + count)[i - start - 1]);
}

/// The first `i` partitions after a run was replaced by one partition hold
/// the rows of the partitions that they stand for.
proof fn lemma_replaced_front(
    before: Seq<Partition>,
    after: Seq<Partition>,
    start: int,
    count: int,
    i: int,
)
    requires
        0 <= start < i <= after.len(),
        0 < count,
        start + count <= before.len(),
        after.len() == before.len() - count + 1,
        after.take(start) == before.take(start),
        after.skip(start + 1) == before.skip(start + count),
    ensures
        sealed_rows(after.take(i)) + sealed_rows(before.subrange(start, start + count))
            == sealed_rows(before.take(i + count - 1)) + after[start].len,
{
    let k = i + count - 1;
    let shorter = before.take(k);
    let front = after.take(i);
    assert(front.take(start) =~= shorter.take(start)) by {
        assert(front.take(start) =~= after.take(start));
        assert(shorter.take(start) =~= before.take(start));
    }
    assert(front.skip(start + 1) =~= shorter.skip(start + count)) by {
        assert forall|x: int| 0 <= x < i - start - 1 implies #[trigger] front.skip(start + 1)[x]
            == shorter.skip(start + count)[x] by {
            assert(front.skip(start + 1)[x] == after[start + 1 + x]);
            assert(after.skip(start + 1)[x] == after[start + 1 + x]);
            assert(shorter.skip(start + count)[x] == before[start + count + x]);
            assert(before.skip(start + count)[x] == before[start + count + x]);
        }
    }
    assert(shorter.subrange(start, start + count) =~= before.subrange(start, start + count));
    lemma_sealed_rows_replaced(shorter, front, start, count);
}

/// 1 if the buffer has rows, which a snapshot shows as a partition, else 0.
pub open spec fn pending(buffer: Option<Buffer>) -> nat {
    match buffer {
        Some(buffer) => if buffer.length > 0 {
            1
        } else {
            0
        },
        None => 0,
    }
}

/// The partition shows the rows of the buffer: all its columns, or with a
/// filter those that the filter asks for.
pub open spec fn shows(partition: Partition, buffer: Buffer, column_filter: Option<&[String]>)
    -> bool {
    &&& partition.len == buffer.length
    &&& partition.wf()
    &&& forall|i: int|
        0 <= i < partition.columns@.len() ==> (#[trigger] partition.columns@[i]).column is Some
    &&& columns_of(
        partition.columns@.map_values(|h: ColumnHandle| (h.name@, h.column->0.values())),
    ) == match column_filter {
        Some(names) => if buffer.buffer@.len() > 0 {
            filtered(buffer.columns(), buffer.names()[0], requested(names@))
        } else {
            buffer.columns()
        },
        None => buffer.columns(),
    }
}

/// `partitions` are the rows of `table` as a query sees them: copies of its
/// partitions, then a partition for the frozen buffer and one for the open
/// buffer where these have rows. The partitions of the buffers continue the
/// ids and the row positions of the table, as far as these can be counted.
pub open spec fn snapshot_of(
    table: Table,
    column_filter: Option<&[String]>,
    partitions: Seq<Partition>,
) -> bool {
    let sealed = table.partitions@.len() as int;
    let frozen = pending(table.frozen_buffer) == 1;
    &&& partitions.len() == sealed + pending(table.frozen_buffer) + pending(Some(table.buffer))
    &&& forall|i: int|
        0 <= i < sealed ==> same_partition(table.partitions@[i], #[trigger] partitions[i])
    &&& forall|i: int| 0 <= i < partitions.len() ==> (#[trigger] partitions[i]).wf()
    &&& frozen ==> {
        &&& shows(partitions[sealed], table.frozen_buffer->0, column_filter)
        &&& partitions[sealed].id == table.next_partition_id
        &&& partitions[sealed].offset == end_offset(table.partitions@)
    }
    &&& pending(Some(table.buffer)) == 1 ==> {
        &&& shows(partitions.last(), table.buffer, column_filter)
        &&& partitions.last().id == if frozen && table.next_partition_id < u64::MAX {
            table.next_partition_id + 1
        } else {
            table.next_partition_id as int
        }
        &&& partitions.last().offset == if frozen {
            saturated(end_offset(table.partitions@) + table.frozen_buffer->0.length as nat)
        } else {
            saturated(end_offset(table.partitions@))
        }
    }
}

/// A partition, not registered with any table, that shows the rows of `buffer`.
fn view_of(buffer: &Buffer, column_filter: Option<&[String]>, id: PartitionID, offset: usize)
    -> (partition:
    Partition)
    requires
        buffer.distinct(),
    ensures
        shows(partition, *buffer, column_filter),
        partition.id == id,
        partition.offset == offset,
{
    match column_filter {
        Some(names) => {
            if buffer.buffer.len() > 0 {
                let shown = buffer.filter(names);
                sealed_copy(&shown, id, offset)
            } else {
                sealed_copy(buffer, id, offset)
            }
        },
        None => sealed_copy(buffer, id, offset),
    }
}

/// A partition that holds copies of the columns of `buffer`.
fn sealed_copy(buffer: &Buffer, id: PartitionID, offset: usize) -> (partition: Partition)
    ensures
        seals(partition, *buffer),
        partition.wf(),
        partition.id == id,
        partition.offset == offset,
        columns_of(
            partition.columns@.map_values(|h: ColumnHandle| (h.name@, h.column->0.values())),
        ) == buffer.columns(),
{
    let mut columns: Vec<Arc<Column>> = Vec::with_capacity(buffer.buffer.len());
    let mut i: usize = 0;
    while i < buffer.buffer.len()
        invariant
            i <= buffer.buffer@.len(),
            columns@.len() == i,
            forall|k: int|
                0 <= k < i ==> {
                    &&& (#[trigger] columns@[k]).spec_data().wf()
                    &&& columns@[k].spec_name() == buffer.buffer@[k].0@
                    &&& columns@[k].values() == buffer.buffer@[k].1@
                },
        decreases buffer.buffer@.len() - i,
    {
        let col = buffer.buffer[i].1.clone();
        columns.push(Arc::new(col.finalize(buffer.buffer[i].0.as_str())));
        i += 1;
    }
    let partition = Partition::new(id, offset, buffer.length, columns);
    assert(partition.columns@.map_values(|h: ColumnHandle| (h.name@, h.column->0.values()))
        =~= buffer.entries());
    partition
}

/// Partitions with the same numbers of rows hold the same number of rows together.
pub proof fn lemma_sealed_rows_same(before: Seq<Partition>, after: Seq<Partition>)
    requires
        before.len() == after.len(),
        forall|i: int| 0 <= i < before.len() ==> (#[trigger] after[i]).len == before[i].len,
    ensures
        sealed_rows(after) == sealed_rows(before),
    decreases before.len(),
{
    if before.len() > 0 {
        assert forall|i: int| 0 <= i < before.drop_last().len() implies (
        #[trigger] after.drop_last()[i]).len == before.drop_last()[i].len by {
            assert(after[i].len == before[i].len);
        }
        lemma_sealed_rows_same(before.drop_last(), after.drop_last());
        assert(after[after.len() - 1].len == before[before.len() - 1].len);
    }
}

impl Table {
    /// Turns the closed buffer, if there is one, into a partition behind the
    /// partitions so far, and returns the id of the new partition. Fails,
    /// and changes nothing, if the rows or the ids cannot be counted any more.
    pub fn batch(&mut self) -> (res: Result<Option<PartitionID>, QueryError>)
        requires
            old(self).wf(),
        ensures
            final(self).wf(),
            final(self).name == old(self).name,
            final(self).buffer == old(self).buffer,
            final(self).row_count() == old(self).row_count(),
            res is Err <==> overfull(*old(self)),
            match res {
                Ok(None) => old(self).frozen_buffer is None && *final(self) == *old(self),
                Ok(Some(id)) => {
                    &&& old(self).frozen_buffer is Some
                    &&& final(self).frozen_buffer is None
                    &&& id == old(self).next_partition_id
                    &&& final(self).next_partition_id == id + 1
                    &&& final(self).partitions@.len() == old(self).partitions@.len() + 1
                    &&& final(self).partitions@.drop_last() == old(self).partitions@
                    &&& final(self).partitions@.last().id == id
                    &&& final(self).partitions@.last().offset == end_offset(old(self).partitions@)
                    &&& seals(final(self).partitions@.last(), old(self).frozen_buffer->0)
                },
                Err(e) => e is FatalError && *final(self) == *old(self),
            },
    {
        let (length, offset) = match &self.frozen_buffer {
            None => {
                return Ok(None);
            },
            Some(frozen) => {
                let offset = if self.partitions.len() == 0 {
                    0
                } else {
                    let last = &self.partitions[self.partitions.len() - 1];
                    last.offset + last.len
                };
                if frozen.length > usize::MAX - offset || self.next_partition_id == u64::MAX {
                    return Err(
                        QueryError::FatalError("Table holds too many rows or partitions".to_owned()),
                    );
                }
                (frozen.length, offset)
            },
        };
        let mut frozen: Option<Buffer> = None;
        core::mem::swap(&mut frozen, &mut self.frozen_buffer);
        let mut entries = match frozen {
            Some(buffer) => buffer.buffer,
            None => Vec::new(),
        };
        let ghost sealed = old(self).frozen_buffer->0;
        let mut columns: Vec<Arc<Column>> = Vec::with_capacity(entries.len());
        let mut i: usize = 0;
        while i < entries.len()
            invariant
                i <= entries@.len(),
                entries@.len() == sealed.buffer@.len(),
                forall|k: int|
                    i <= k < entries@.len() ==> (#[trigger] entries@[k]).0@ == sealed.buffer@[k].0@
                        && entries@[k].1@ == sealed.buffer@[k].1@,
                columns@.len() == i,
                forall|k: int|
                    0 <= k < i ==> {
                        &&& (#[trigger] columns@[k]).spec_data().wf()
                        &&& columns@[k].spec_name() == sealed.buffer@[k].0@
                        &&& columns@[k].values() == sealed.buffer@[k].1@
                    },
            decreases entries@.len() - i,
        {
            let mut entry = (String::new(), MixedCol::new());
            let ghost rest = entries@;
            core::mem::swap(&mut entry, &mut entries[i]);
            proof {
                assert forall|k: int| i + 1 <= k < entries@.len() implies (#[trigger] entries@[k]).0@
                    == sealed.buffer@[k].0@ && entries@[k].1@ == sealed.buffer@[k].1@ by {
                    assert(rest[k] == entries@[k]);
                }
                assert(rest[i as int].0@ == sealed.buffer@[i as int].0@);
            }
            let (name, col) = entry;
            columns.push(Arc::new(col.finalize(name.as_str())));
            i += 1;
        }
        let id = self.next_partition_id;
        let partition = Partition::new(id, offset, length, columns);
        proof {
            lemma_sealed_rows_push(self.partitions@, partition);
        }
        self.partitions.push(partition);
        self.next_partition_id = id + 1;
        Ok(Some(id))
    }

    /// Replaces the partitions with the ids `parts`, which must follow one
    /// another in the table in this order, by one partition of the given
    /// columns. Returns whether it did; if the table has no such run of
    /// partitions it stays as it is.
    pub fn compact(
        &mut self,
        id: PartitionID,
        offset: usize,
        len: usize,
        columns: Vec<Arc<Column>>,
        parts: &[PartitionID],
    ) -> (done: bool)
        requires
            old(self).wf(),
            id < old(self).next_partition_id,
            offset + len <= usize::MAX,
            forall|i: int| 0 <= i < columns@.len() ==> (#[trigger] columns@[i]).spec_data().wf(),
        ensures
            final(self).wf(),
            final(self).name == old(self).name,
            final(self).buffer == old(self).buffer,
            final(self).frozen_buffer == old(self).frozen_buffer,
            final(self).next_partition_id == old(self).next_partition_id,
            done <==> parts@.len() > 0 && exists|start: int|
                #[trigger] ids_at(old(self).partitions@, start, parts@),
            !done ==> final(self).partitions == old(self).partitions,
            done ==> exists|start: int|
                {
                    &&& #[trigger] ids_at(old(self).partitions@, start, parts@)
                    &&& forall|earlier: int|
                        0 <= earlier < start ==> !ids_at(old(self).partitions@, earlier, parts@)
                    &&& final(self).partitions@.len() == old(self).partitions@.len()
                        - parts@.len() + 1
                    &&& final(self).partitions@.take(start) == old(self).partitions@.take(start)
                    &&& final(self).partitions@.skip(start + 1) == old(self).partitions@.skip(
                        start + parts@.len(),
                    )
                    &&& final(self).partitions@[start].id == id
                    &&& final(self).partitions@[start].offset == offset
                    &&& final(self).partitions@[start].len == len
                    &&& final(self).row_count() + sealed_rows(
                        old(self).partitions@.subrange(start, start + parts@.len()),
                    ) == old(self).row_count() + len
                    &&& final(self).partitions@[start].columns@.len() == columns@.len()
                    &&& forall|i: int|
                        0 <= i < columns@.len() ==> (
                        #[trigger] final(self).partitions@[start].columns@[i]).column == Some(
                            columns@[i],
                        )
                },
    {
        if parts.len() == 0 || parts.len() > self.partitions.len() {
            return false;
        }
        let n = parts.len();
        let total = self.partitions.len();
        let mut start: usize = 0;
        let mut found = false;
        while !found && start <= total - n
            invariant
                total == self.partitions@.len(),
                0 < n <= self.partitions@.len(),
                n == parts@.len(),
                found ==> ids_at(self.partitions@, start as int, parts@),
                forall|earlier: int|
                    0 <= earlier < start ==> !ids_at(self.partitions@, earlier, parts@),
            decreases self.partitions@.len() - start + if found {
                0int
            } else {
                1int
            },
        {
            let mut k: usize = 0;
            let mut same = true;
            let ghost run = self.partitions@.subrange(start as int, start + n);
            while same && k < n
                invariant
                    k <= n,
                    n == parts@.len(),
                    total == self.partitions@.len(),
                    start + n <= self.partitions@.len(),
                    run == self.partitions@.subrange(start as int, start + n),
                    same ==> ids_of(run.take(k as int)) == parts@.take(k as int),
                    !same ==> ids_of(run) != parts@,
                decreases n - k + if same {
                    1int
                } else {
                    0int
                },
            {
                if self.partitions[start + k].id != parts[k] {
                    assert(ids_of(run)[k as int] != parts@[k as int]);
                    same = false;
                } else {
                    assert(ids_of(run.take(k + 1))
                        =~= ids_of(run.take(k as int)).push(run[k as int].id));
                    assert(parts@.take(k + 1) =~= parts@.take(k as int).push(parts@[k as int]));
                    k += 1;
                }
            }
            if same {
                assert(run.take(n as int) =~= run);
                assert(parts@.take(n as int) =~= parts@);
                found = true;
            } else {
                start += 1;
            }
        }
        if !found {
            assert forall|at: int| !ids_at(self.partitions@, at, parts@) by {
                if 0 <= at && at + n <= total {
                    assert(at < start);
                }
            }
            return false;
        }
        let ghost before = self.partitions@;
        let mut removed: usize = 0;
        while removed < n
            invariant
                removed <= n,
                start + n <= before.len(),
                before == old(self).partitions@,
                self.name == old(self).name,
                self.buffer == old(self).buffer,
                self.frozen_buffer == old(self).frozen_buffer,
                self.next_partition_id == old(self).next_partition_id,
                self.partitions@ == before.take(start as int) + before.skip(start + removed),
            decreases n - removed,
        {
            assert(before.skip(start as int + 0) =~= before.skip(start as int));
            self.partitions.remove(start);
            assert(self.partitions@ =~= before.take(start as int) + before.skip(start + removed + 1));
            removed += 1;
        }
        let partition = Partition::new(id, offset, len, columns);
        self.partitions.insert(start, partition);
        proof {
            assert(self.partitions@.take(start as int) =~= before.take(start as int));
            assert(self.partitions@.skip(start + 1) =~= before.skip(start + n));
            lemma_sealed_rows_replaced(before, self.partitions@, start as int, n as int);
            assert forall|i: int| 0 <= i < self.partitions@.len() implies (
            #[trigger] self.partitions@[i]).wf() && self.partitions@[i].offset
                + self.partitions@[i].len <= usize::MAX && self.partitions@[i].id
                < self.next_partition_id by {
                if i < start {
                    assert(self.partitions@[i] == before[i]);
                } else if i > start {
                    assert(self.partitions@[i] == before[i + n - 1]);
                }
            }
        }
        true
    }

    /// The rows of the table as a query sees them: copies of the partitions,
    /// which share the data of their columns, followed by a partition for
    /// the rows of the frozen buffer and one for the rows of the open buffer,
    /// where these have rows. With a `column_filter` the partitions of the
    /// buffers hold the columns of the filter only, and the first column of
    /// the buffer if it has none of them.
    pub fn snapshot(&self, column_filter: Option<&[String]>) -> (partitions: Vec<Partition>)
        requires
            self.wf(),
        ensures
            snapshot_of(*self, column_filter, partitions@),
    {
        let mut partitions: Vec<Partition> = Vec::with_capacity(self.partitions.len());
        let mut i: usize = 0;
        while i < self.partitions.len()
            invariant
                i <= self.partitions@.len(),
                self.wf(),
                partitions@.len() == i,
                forall|k: int|
                    0 <= k < i ==> same_partition(self.partitions@[k], #[trigger] partitions@[k])
                        && partitions@[k].wf(),
            decreases self.partitions@.len() - i,
        {
            partitions.push(self.partitions[i].duplicate());
            i += 1;
        }
        let mut id = self.next_partition_id;
        let mut offset = if self.partitions.len() == 0 {
            0
        } else {
            let last = &self.partitions[self.partitions.len() - 1];
            last.offset + last.len
        };
        if let Some(frozen) = &self.frozen_buffer {
            if frozen.len() > 0 {
                partitions.push(view_of(frozen, column_filter, id, offset));
                id = if id == u64::MAX {
                    id
                } else {
                    id + 1
                };
                offset = saturating_sum(offset, frozen.len());
            }
        }
        if self.buffer.len() > 0 {
            partitions.push(view_of(&self.buffer, column_filter, id, offset));
        }
        partitions
    }

    /// The bytes that the table takes in memory, as far as a `usize` can
    /// hold it: those of the columns of its partitions that are in memory
    /// and those of its buffers.
    pub open spec fn spec_heap_size(&self) -> usize {
        let sealed = saturated(
            (saturated(resident_total(self.partitions@)) + self.buffer.spec_heap_size()) as nat,
        );
        match self.frozen_buffer {
            Some(frozen) => saturated((sealed + frozen.spec_heap_size()) as nat),
            None => sealed,
        }
    }

    /// The bytes that the table takes in memory, as far as a `usize` can hold it.
    pub fn heap_size_of_children(&self) -> (bytes: usize)
        ensures
            bytes == self.spec_heap_size(),
    {
        let mut bytes: usize = 0;
        let mut i: usize = 0;
        assert(self.partitions@.take(0) =~= Seq::<Partition>::empty());
        while i < self.partitions.len()
            invariant
                i <= self.partitions@.len(),
                bytes == saturated(resident_total(self.partitions@.take(i as int))),
            decreases self.partitions@.len() - i,
        {
            assert(self.partitions@.take(i + 1).drop_last() =~= self.partitions@.take(i as int));
            bytes = saturating_sum(bytes, self.partitions[i].heap_size_of_children());
            i += 1;
        }
        assert(self.partitions@.take(i as int) =~= self.partitions@);
        bytes = saturating_sum(bytes, self.buffer.heap_size_of_children());
        if let Some(frozen) = &self.frozen_buffer {
            bytes = saturating_sum(bytes, frozen.heap_size_of_children());
        }
        bytes
    }

    /// Drops the column that `victim` names from memory and returns the
    /// bytes that this frees.
    pub fn evict(&mut self, victim: &ColumnLocator) -> (freed: usize)
        requires
            old(self).wf(),
        ensures
            final(self).wf(),
            final(self).name == old(self).name,
            final(self).buffer == old(self).buffer,
            final(self).frozen_buffer == old(self).frozen_buffer,
            final(self).next_partition_id == old(self).next_partition_id,
            final(self).partitions@.len() == old(self).partitions@.len(),
            forall|i: int|
                0 <= i < old(self).partitions@.len() ==> {
                    let before = old(self).partitions@[i];
                    let after = #[trigger] final(self).partitions@[i];
                    &&& after.id == before.id
                    &&& after.offset == before.offset
                    &&& after.len == before.len
                    &&& after.columns@ == if before.id == victim.id {
                        before.columns@.map_values(|h: ColumnHandle| dropped(h, victim.column@))
                    } else {
                        before.columns@
                    }
                },
            resident_total(final(self).partitions@) <= resident_total(old(self).partitions@),
            freed == saturated(
                (resident_total(old(self).partitions@) - resident_total(
                    final(self).partitions@,
                )) as nat,
            ),
    {
        let mut freed: usize = 0;
        let mut i: usize = 0;
        let ghost before = self.partitions@;
        assert(before.take(0) =~= Seq::<Partition>::empty());
        assert(self.partitions@.take(0) =~= Seq::<Partition>::empty());
        while i < self.partitions.len()
            invariant
                i <= before.len(),
                before == old(self).partitions@,
                self.partitions@.len() == before.len(),
                self.name == old(self).name,
                self.buffer == old(self).buffer,
                self.frozen_buffer == old(self).frozen_buffer,
                self.next_partition_id == old(self).next_partition_id,
                old(self).wf(),
                forall|k: int|
                    0 <= k < i ==> {
                        let after = #[trigger] self.partitions@[k];
                        &&& after.wf()
                        &&& after.id == before[k].id
                        &&& after.offset == before[k].offset
                        &&& after.len == before[k].len
                        &&& after.columns@ == if before[k].id == victim.id {
                            before[k].columns@.map_values(
                                |h: ColumnHandle| dropped(h, victim.column@),
                            )
                        } else {
                            before[k].columns@
                        }
                    },
                forall|k: int| i <= k < before.len() ==> #[trigger] self.partitions@[k] == before[k],
                resident_total(self.partitions@.take(i as int)) <= resident_total(
                    before.take(i as int),
                ),
                freed == saturated(
                    (resident_total(before.take(i as int)) - resident_total(
                        self.partitions@.take(i as int),
                    )) as nat,
                ),
            decreases before.len() - i,
        {
            let ghost current = self.partitions@;
            proof {
                assert(before.take(i + 1).drop_last() =~= before.take(i as int));
                assert(current[i as int] == before[i as int]);
            }
            if self.partitions[i].id == victim.id {
                let bytes = self.partitions[i].evict(victim.column.as_str());
                freed = saturating_sum(freed, bytes);
            }
            proof {
                assert(self.partitions@.take(i + 1).drop_last() =~= current.take(i as int));
                assert forall|k: int| i + 1 <= k < before.len() implies #[trigger] self.partitions@[k]
                    == before[k] by {
                    assert(current[k] == before[k]);
                }
                assert forall|k: int| 0 <= k < i implies self.partitions@[k] == current[k] by {}
            }
            i += 1;
        }
        proof {
            assert(before.take(i as int) =~= before);
            assert(self.partitions@.take(i as int) =~= self.partitions@);
        }
        freed
    }

    /// Takes up a partition that is on disk, behind the partitions so far:
    /// the partition `id` of `len` rows from row `offset` on, with columns
    /// of the names `columns`, none of them in memory. The next id that the
    /// table hands out is above `id`. Fails, and changes nothing, if the
    /// rows or the ids cannot be counted.
    pub fn attach(&mut self, id: PartitionID, offset: usize, len: usize, columns: &[String]) -> (res:
        Result<(), QueryError>)
        requires
            old(self).wf(),
        ensures
            final(self).wf(),
            final(self).name == old(self).name,
            final(self).buffer == old(self).buffer,
            final(self).frozen_buffer == old(self).frozen_buffer,
            res is Err <==> offset + len > usize::MAX || id == u64::MAX,
            match res {
                Ok(()) => {
                    &&& final(self).partitions@.len() == old(self).partitions@.len() + 1
                    &&& final(self).partitions@.drop_last() == old(self).partitions@
                    &&& on_disk(
                        final(self).partitions@.last(),
                        id,
                        offset,
                        len,
                        columns@.map_values(|n: String| n@),
                    )
                    &&& final(self).next_partition_id == if old(self).next_partition_id > id {
                        old(self).next_partition_id
                    } else {
                        (id + 1) as u64
                    }
                    &&& final(self).row_count() == old(self).row_count() + len
                },
                Err(e) => e is FatalError && *final(self) == *old(self),
            },
    {
        if len > usize::MAX - offset || id == u64::MAX {
            return Err(QueryError::FatalError("Partition is out of range".to_owned()));
        }
        let mut handles: Vec<ColumnHandle> = Vec::with_capacity(columns.len());
        let mut c: usize = 0;
        while c < columns.len()
            invariant
                c <= columns@.len(),
                handles@.len() == c,
                forall|k: int|
                    0 <= k < c ==> {
                        &&& (#[trigger] handles@[k]).name@ == columns@[k]@
                        &&& handles@[k].column is None
                        &&& handles@[k].size_bytes == 0
                    },
            decreases columns@.len() - c,
        {
            handles.push(ColumnHandle { name: columns[c].clone(), size_bytes: 0, column: None });
            c += 1;
        }
        let ghost before = self.partitions@;
        self.partitions.push(Partition { id, offset, len, columns: handles });
        if self.next_partition_id <= id {
            self.next_partition_id = id + 1;
        }
        proof {
            assert(self.partitions@.drop_last() =~= before);
            lemma_sealed_rows_push(before, self.partitions@.last());
            assert forall|i: int| 0 <= i < self.partitions@.len() implies (
            #[trigger] self.partitions@[i]).wf() && self.partitions@[i].offset
                + self.partitions@[i].len <= usize::MAX && self.partitions@[i].id
                < self.next_partition_id by {
                if i < before.len() {
                    assert(self.partitions@[i] == before[i]);
                }
            }
        }
        Ok(())
    }

    /// Whether the table has a partition `id` with a column of the name `name`.
    pub fn holds_column(&self, id: PartitionID, name: &str) -> (held: bool)
        ensures
            held == has_column(self.partitions@, id, name@),
    {
        let mut p: usize = 0;
        while p < self.partitions.len()
            invariant
                p <= self.partitions@.len(),
                forall|x: int, c: int|
                    0 <= x < p && 0 <= c < self.partitions@[x].columns@.len() ==> !((
                    #[trigger] self.partitions@[x]).id == id && (
                    #[trigger] self.partitions@[x].columns@[c]).name@ == name@),
            decreases self.partitions@.len() - p,
        {
            if self.partitions[p].id == id {
                let mut c: usize = 0;
                while c < self.partitions[p].columns.len()
                    invariant
                        p < self.partitions@.len(),
                        self.partitions@[p as int].id == id,
                        c <= self.partitions@[p as int].columns@.len(),
                        forall|y: int|
                            0 <= y < c ==> (#[trigger] self.partitions@[p as int].columns@[y]).name@
                                != name@,
                    decreases self.partitions@[p as int].columns@.len() - c,
                {
                    if same_text(self.partitions[p].columns[c].name.as_str(), name) {
                        return true;
                    }
                    c += 1;
                }
            }
            p += 1;
        }
        false
    }

    /// Puts the data of a column of the partition `id` back into memory.
    pub fn restore(&mut self, id: PartitionID, column: &Arc<Column>)
        requires
            old(self).wf(),
            column.spec_data().wf(),
        ensures
            final(self).wf(),
            final(self).name == old(self).name,
            final(self).buffer == old(self).buffer,
            final(self).frozen_buffer == old(self).frozen_buffer,
            final(self).next_partition_id == old(self).next_partition_id,
            final(self).partitions@.len() == old(self).partitions@.len(),
            forall|i: int|
                0 <= i < old(self).partitions@.len() ==> {
                    let before = old(self).partitions@[i];
                    let after = #[trigger] final(self).partitions@[i];
                    &&& after.id == before.id
                    &&& after.offset == before.offset
                    &&& after.len == before.len
                    &&& after.columns@ == if before.id == id {
                        before.columns@.map_values(|h: ColumnHandle| loaded(h, *column))
                    } else {
                        before.columns@
                    }
                },
    {
        let mut i: usize = 0;
        let ghost before = self.partitions@;
        while i < self.partitions.len()
            invariant
                i <= before.len(),
                before == old(self).partitions@,
                self.partitions@.len() == before.len(),
                self.name == old(self).name,
                self.buffer == old(self).buffer,
                self.frozen_buffer == old(self).frozen_buffer,
                self.next_partition_id == old(self).next_partition_id,
                old(self).wf(),
                column.spec_data().wf(),
                forall|k: int|
                    0 <= k < i ==> {
                        let after = #[trigger] self.partitions@[k];
                        &&& after.wf()
                        &&& after.id == before[k].id
                        &&& after.offset == before[k].offset
                        &&& after.len == before[k].len
                        &&& after.columns@ == if before[k].id == id {
                            before[k].columns@.map_values(|h: ColumnHandle| loaded(h, *column))
                        } else {
                            before[k].columns@
                        }
                    },
                forall|k: int| i <= k < before.len() ==> #[trigger] self.partitions@[k] == before[k],
            decreases before.len() - i,
        {
            let ghost current = self.partitions@;
            assert(current[i as int] == before[i as int]);
            if self.partitions[i].id == id {
                self.partitions[i].restore(column);
            }
            proof {
                assert forall|k: int| i + 1 <= k < before.len() implies #[trigger] self.partitions@[k]
                    == before[k] by {
                    assert(current[k] == before[k]);
                }
                assert forall|k: int| 0 <= k < i implies self.partitions@[k] == current[k] by {}
            }
            i += 1;
        }
    }
}

} // verus!
