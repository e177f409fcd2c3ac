//! Sealed groups of rows of a table.

use std::sync::Arc;

use vstd::prelude::*;

use crate::engine::vec_data::same_text;
use crate::mem_store::column::Column;
use crate::mem_store::lru::PartitionID;
use crate::mem_store::raw_col::saturated;

verus! {

/// A column of a partition: its name and size, and its data while it is in memory.
#[derive(Debug)]
pub struct ColumnHandle {
    pub name: String,
    pub size_bytes: usize,
    pub column: Option<Arc<Column>>,
}

/// An immutable group of consecutive rows of a table, held column by column.
#[derive(Debug)]
pub struct Partition {
    pub id: PartitionID,
    /// The position of the first row in the table.
    pub offset: usize,
    /// Number of rows.
    pub len: usize,
    pub columns: Vec<ColumnHandle>,
}

/// The bytes of the columns that are in memory.
pub open spec fn resident_bytes(columns: Seq<ColumnHandle>) -> nat
    decreases columns.len(),
{
    if columns.len() == 0 {
        0
    } else if columns.last().column is Some {
        resident_bytes(columns.drop_last()) + columns.last().size_bytes as nat
    } else {
        resident_bytes(columns.drop_last())
    }
}

/// The handle without its data if it is the column `name`.
pub open spec fn dropped(handle: ColumnHandle, name: Seq<char>) -> ColumnHandle {
    if handle.name@ == name {
        ColumnHandle { name: handle.name, size_bytes: handle.size_bytes, column: None }
    } else {
        handle
    }
}

/// The handle with the data `column`, and its size, if that is its column.
pub open spec fn loaded(handle: ColumnHandle, column: Arc<Column>) -> ColumnHandle {
    if handle.name@ == column.spec_name() {
        ColumnHandle {
            name: handle.name,
            size_bytes: saturated(column.spec_data().heap_bytes()),
            column: Some(column),
        }
    } else {
        handle
    }
}

/// Two handles stand for the same column and share its data.
pub open spec fn same_handle(a: ColumnHandle, b: ColumnHandle) -> bool {
    &&& a.name@ == b.name@
    &&& a.size_bytes == b.size_bytes
    &&& a.column == b.column
}

/// Two partitions hold the same rows and share the data of their columns.
pub open spec fn same_partition(a: Partition, b: Partition) -> bool {
    &&& a.id == b.id
    &&& a.offset == b.offset
    &&& a.len == b.len
    &&& a.columns@.len() == b.columns@.len()
    &&& forall|i: int|
        0 <= i < a.columns@.len() ==> same_handle(a.columns@[i], #[trigger] b.columns@[i])
}

/// `a + b` as far as a `usize` can hold it.
pub fn saturating_sum(a: usize, b: usize) -> (sum: usize)
    ensures
        sum == saturated((a + b) as nat),
{
    if a > usize::MAX - b {
        usize::MAX
    } else {
        a + b
    }
}

impl Partition {
    /// Every column in memory is stored consistently and has the name of its handle.
    pub open spec fn wf(&self) -> bool {
        forall|i: int|
            0 <= i < self.columns@.len() && (#[trigger] self.columns@[i]).column is Some ==> {
                &&& self.columns@[i].column->0.spec_data().wf()
                &&& self.columns@[i].column->0.spec_name() == self.columns@[i].name@
            }
    }

    /// A partition of the given columns, all of them in memory.
    pub fn new(id: PartitionID, offset: usize, len: usize, columns: Vec<Arc<Column>>) -> (partition:
        Partition)
        requires
            forall|i: int| 0 <= i < columns@.len() ==> (#[trigger] columns@[i]).spec_data().wf(),
        ensures
            partition.wf(),
            partition.id == id,
            partition.offset == offset,
            partition.len == len,
            partition.columns@.len() == columns@.len(),
            forall|i: int|
                0 <= i < columns@.len() ==> {
                    &&& (#[trigger] partition.columns@[i]).column == Some(columns@[i])
                    &&& partition.columns@[i].name@ == columns@[i].spec_name()
                    &&& partition.columns@[i].size_bytes == saturated(
                        columns@[i].spec_data().heap_bytes(),
                    )
                },
    {
        let mut handles: Vec<ColumnHandle> = Vec::with_capacity(columns.len());
        let mut i: usize = 0;
        while i < columns.len()
            invariant
                i <= columns@.len(),
                forall|i: int| 0 <= i < columns@.len() ==> (#[trigger] columns@[i]).spec_data().wf(),
                handles@.len() == i,
                forall|k: int|
                    0 <= k < i ==> {
                        &&& (#[trigger] handles@[k]).column == Some(columns@[k])
                        &&& handles@[k].name@ == columns@[k].spec_name()
                        &&& handles@[k].size_bytes == saturated(
                            columns@[k].spec_data().heap_bytes(),
                        )
                    },
            decreases columns@.len() - i,
        {
            let column = columns[i].clone();
            handles.push(
                ColumnHandle {
                    name: column.name().to_owned(),
                    size_bytes: column.heap_size_of_children(),
                    column: Some(column),
                },
            );
            i += 1;
        }
        Partition { id, offset, len, columns: handles }
    }

    /// A copy of the partition that shares the data of its columns.
    pub fn duplicate(&self) -> (copy: Partition)
        ensures
            same_partition(*self, copy),
            self.wf() ==> copy.wf(),
    {
        let mut columns: Vec<ColumnHandle> = Vec::with_capacity(self.columns.len());
        let mut i: usize = 0;
        while i < self.columns.len()
            invariant
                i <= self.columns@.len(),
                columns@.len() == i,
                forall|k: int| 0 <= k < i ==> same_handle(self.columns@[k], #[trigger] columns@[k]),
            decreases self.columns@.len() - i,
        {
            let handle = &self.columns[i];
            let column = match &handle.column {
                Some(column) => Some(column.clone()),
                None => None,
            };
            columns.push(
                ColumnHandle { name: handle.name.clone(), size_bytes: handle.size_bytes, column },
            );
            i += 1;
        }
        Partition { id: self.id, offset: self.offset, len: self.len, columns }
    }

    /// The bytes of the columns that are in memory, as far as a `usize` can hold it.
    pub fn heap_size_of_children(&self) -> (bytes: usize)
        ensures
            bytes == saturated(resident_bytes(self.columns@)),
    {
        let mut bytes: usize = 0;
        let mut i: usize = 0;
        assert(self.columns@.take(0) =~= Seq::<ColumnHandle>::empty());
        while i < self.columns.len()
            invariant
                i <= self.columns@.len(),
                bytes == saturated(resident_bytes(self.columns@.take(i as int))),
            decreases self.columns@.len() - i,
        {
            assert(self.columns@.take(i + 1).drop_last() =~= self.columns@.take(i as int));
            if self.columns[i].column.is_some() {
                bytes = saturating_sum(bytes, self.columns[i].size_bytes);
            }
            i += 1;
        }
        assert(self.columns@.take(i as int) =~= self.columns@);
        bytes
    }

    /// Drops the data of the column `name` from memory and returns the bytes
    /// that this frees.
    pub fn evict(&mut self, name: &str) -> (freed: usize)
        ensures
            final(self).id == old(self).id,
            final(self).offset == old(self).offset,
            final(self).len == old(self).len,
            final(self).columns@ == old(self).columns@.map_values(
                |h: ColumnHandle| dropped(h, name@),
            ),
            freed == saturated(
                (resident_bytes(old(self).columns@) - resident_bytes(final(self).columns@)) as nat,
            ),
            resident_bytes(final(self).columns@) <= resident_bytes(old(self).columns@),
            old(self).wf() ==> final(self).wf(),
    {
        let mut freed: usize = 0;
        let mut i: usize = 0;
        let ghost before = self.columns@;
        assert(before.take(0) =~= Seq::<ColumnHandle>::empty());
        assert(self.columns@.take(0) =~= Seq::<ColumnHandle>::empty());
        while i < self.columns.len()
            invariant
                i <= before.len(),
                before == old(self).columns@,
                self.columns@.len() == before.len(),
                self.id == old(self).id,
                self.offset == old(self).offset,
                self.len == old(self).len,
                forall|k: int| 0 <= k < i ==> #[trigger] self.columns@[k]
                    == dropped(before[k], name@),
                forall|k: int| i <= k < before.len() ==> #[trigger] self.columns@[k] == before[k],
                resident_bytes(self.columns@.take(i as int)) <= resident_bytes(
                    before.take(i as int),
                ),
                freed == saturated(
                    (resident_bytes(before.take(i as int)) - resident_bytes(
                        self.columns@.take(i as int),
                    )) as nat,
                ),
            decreases before.len() - i,
        {
            let ghost current = self.columns@;
            proof {
                assert(before.take(i + 1).drop_last() =~= before.take(i as int));
            }
            if self.columns[i].column.is_some() && same_text(self.columns[i].name.as_str(), name) {
                freed = saturating_sum(freed, self.columns[i].size_bytes);
                self.columns[i].column = None;
            }
            proof {
                assert(self.columns@[i as int] == dropped(before[i as int], name@));
                assert(self.columns@.take(i + 1).drop_last() =~= current.take(i as int));
                assert forall|k: int| i + 1 <= k < before.len() implies #[trigger] self.columns@[k]
                    == before[k] by {
                    assert(current[k] == before[k]);
                }
                assert forall|k: int| 0 <= k < i implies #[trigger] self.columns@[k] == dropped(
                    before[k],
                    name@,
                ) by {
                    assert(current[k] == dropped(before[k], name@));
                }
            }
            i += 1;
        }
        proof {
            assert(before.take(i as int) =~= before);
            assert(self.columns@.take(i as int) =~= self.columns@);
            assert(self.columns@ =~= before.map_values(|h: ColumnHandle| dropped(h, name@)));
        }
        freed
    }

    /// Puts the data of a column back into memory.
    pub fn restore(&mut self, column: &Arc<Column>)
        requires
            column.spec_data().wf(),
        ensures
            final(self).id == old(self).id,
            final(self).offset == old(self).offset,
            final(self).len == old(self).len,
            final(self).columns@ == old(self).columns@.map_values(
                |h: ColumnHandle| loaded(h, *column),
            ),
            old(self).wf() ==> final(self).wf(),
    {
        let mut i: usize = 0;
        let ghost before = self.columns@;
        while i < self.columns.len()
            invariant
                i <= before.len(),
                before == old(self).columns@,
                self.columns@.len() == before.len(),
                self.id == old(self).id,
                self.offset == old(self).offset,
                self.len == old(self).len,
                column.spec_data().wf(),
                forall|k: int| 0 <= k < i ==> #[trigger] self.columns@[k]
                    == loaded(before[k], *column),
                forall|k: int| i <= k < before.len() ==> #[trigger] self.columns@[k] == before[k],
            decreases before.len() - i,
        {
            let ghost current = self.columns@;
            if same_text(self.columns[i].name.as_str(), column.name()) {
                self.columns[i].size_bytes = column.heap_size_of_children();
                self.columns[i].column = Some(column.clone());
            }
            proof {
                assert(self.columns@[i as int] == loaded(before[i as int], *column));
                assert forall|k: int| i + 1 <= k < before.len() implies #[trigger] self.columns@[k]
                    == before[k] by {
                    assert(current[k] == before[k]);
                }
                assert forall|k: int| 0 <= k < i implies #[trigger] self.columns@[k] == loaded(
                    before[k],
                    *column,
                ) by {
                    assert(current[k] == loaded(before[k], *column));
                }
            }
            i += 1;
        }
        assert(self.columns@ =~= before.map_values(|h: ColumnHandle| loaded(h, *column)));
    }
}

} // verus!
