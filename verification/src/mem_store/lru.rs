//! The order in which columns that were loaded from disk may be evicted.

use vstd::prelude::*;

verus! {

/// The id of a partition within its table.
pub type PartitionID = u64;

/// Names a column of a partition of a table.
#[derive(Debug, Clone, PartialEq, Eq, Hash)]
pub struct ColumnLocator {
    pub table: String,
    pub id: PartitionID,
    pub column: String,
}

/// What a `ColumnLocator` names.
pub struct LocatorView {
    pub table: Seq<char>,
    pub id: PartitionID,
    pub column: Seq<char>,
}

impl View for ColumnLocator {
    type V = LocatorView;

    open spec fn view(&self) -> LocatorView {
        LocatorView { table: self.table@, id: self.id, column: self.column@ }
    }
}

impl ColumnLocator {
    /// A locator for the given column.
    pub fn new(table: &str, id: PartitionID, column: &str) -> (locator: ColumnLocator)
        ensures
            locator@ == (LocatorView { table: table@, id, column: column@ }),
    {
        ColumnLocator { table: table.to_owned(), id, column: column.to_owned() }
    }

    /// Whether two locators name the same column.
    pub fn same(&self, other: &ColumnLocator) -> (same: bool)
        ensures
            same == (self@ == other@),
    {
        self.id == other.id && self.table == other.table && self.column == other.column
    }

    /// A copy of the locator.
    pub fn copy(&self) -> (locator: ColumnLocator)
        ensures
            locator@ == self@,
    {
        ColumnLocator { table: self.table.clone(), id: self.id, column: self.column.clone() }
    }
}

/// The columns that can be evicted, the least recently used first.
#[derive(Debug)]
pub struct Lru {
    entries: Vec<ColumnLocator>,
}

impl View for Lru {
    type V = Seq<LocatorView>;

    /// The columns in the order of their last use, the oldest first.
    closed spec fn view(&self) -> Seq<LocatorView> {
        self.entries@.map_values(|e: ColumnLocator| e@)
    }
}

/// `entries` without `key`.
pub open spec fn without(entries: Seq<LocatorView>, key: LocatorView) -> Seq<LocatorView>
    decreases entries.len(),
{
    if entries.len() == 0 {
        Seq::empty()
    } else if entries.last() == key {
        without(entries.drop_last(), key)
    } else {
        without(entries.drop_last(), key).push(entries.last())
    }
}

impl Lru {
    /// An order without columns.
    pub fn new() -> (lru: Lru)
        ensures
            lru@ == Seq::<LocatorView>::empty(),
    {
        let lru = Lru { entries: Vec::new() };
        assert(lru@ =~= Seq::<LocatorView>::empty());
        lru
    }

    /// Number of columns that can be evicted.
    pub fn len(&self) -> (n: usize)
        ensures
            n == self@.len(),
    {
        self.entries.len()
    }

    /// Removes `key` from the order.
    pub fn remove(&mut self, key: &ColumnLocator)
        ensures
            final(self)@ == without(old(self)@, key@),
    {
        let mut kept: Vec<ColumnLocator> = Vec::with_capacity(self.entries.len());
        let mut i: usize = 0;
        let ghost all = self@;
        assert(all.take(0) =~= Seq::<LocatorView>::empty());
        while i < self.entries.len()
            invariant
                i <= self.entries@.len(),
                all == self@,
                self.entries@ == old(self).entries@,
                kept@.map_values(|e: ColumnLocator| e@) == without(all.take(i as int), key@),
            decreases self.entries@.len() - i,
        {
            proof {
                assert(all.take(i + 1).drop_last() =~= all.take(i as int));
                assert(all.take(i + 1).last() == all[i as int]);
            }
            if !self.entries[i].same(key) {
                let ghost before = kept@.map_values(|e: ColumnLocator| e@);
                kept.push(self.entries[i].copy());
                assert(kept@.map_values(|e: ColumnLocator| e@) =~= before.push(all[i as int]));
            }
            i += 1;
        }
        assert(all.take(i as int) =~= all);
        self.entries = kept;
    }

    /// Records that `key` was used just now.
    pub fn touch(&mut self, key: &ColumnLocator)
        ensures
            final(self)@ == without(old(self)@, key@).push(key@),
    {
        self.remove(key);
        let ghost before = self@;
        self.entries.push(key.copy());
        assert(self@ =~= before.push(key@));
    }

    /// Takes the least recently used column out of the order.
    pub fn evict(&mut self) -> (victim: Option<ColumnLocator>)
        ensures
            match victim {
                Some(key) => old(self)@.len() > 0 && key@ == old(self)@[0] && final(self)@
                    == old(self)@.drop_first(),
                None => old(self)@.len() == 0 && final(self)@ == old(self)@,
            },
    {
        if self.entries.len() == 0 {
            None
        } else {
            let key = self.entries.remove(0);
            assert(self@ =~= old(self)@.drop_first());
            Some(key)
        }
    }
}

impl Default for Lru {
    fn default() -> (lru: Lru)
        ensures
            lru@ == Seq::<LocatorView>::empty(),
    {
        Lru::new()
    }
}

} // verus!
