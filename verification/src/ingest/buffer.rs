//! The open write set of a table.

use vstd::prelude::*;

use crate::ingest::input_column::{nulls, InputColumn};
use crate::ingest::raw_val::{RawVal, Value};
use crate::mem_store::raw_col::{saturated, MixedCol, VALUE_BYTES};

verus! {

/// The rows of a table that have not been sealed into a partition yet, held
/// column by column under the columns' names, which are distinct.
#[derive(Debug)]
pub struct Buffer {
    pub buffer: Vec<(String, MixedCol)>,
    pub length: usize,
}

/// A column as a specification sees it: its name and its values.
pub type Entry = (Seq<char>, Seq<Value>);

/// The columns by name. Of two entries with one name the later one counts.
pub open spec fn columns_of(entries: Seq<Entry>) -> Map<Seq<char>, Seq<Value>>
    decreases entries.len(),
{
    if entries.len() == 0 {
        Map::empty()
    } else {
        columns_of(entries.drop_last()).insert(entries.last().0, entries.last().1)
    }
}

/// The names of the entries.
pub open spec fn names_of(entries: Seq<Entry>) -> Seq<Seq<char>> {
    entries.map_values(|e: Entry| e.0)
}

/// The columns after `values` went to the column `name`, which starts as
/// `len` nulls if it is new.
pub open spec fn with_values(
    columns: Map<Seq<char>, Seq<Value>>,
    len: nat,
    name: Seq<char>,
    values: Seq<Value>,
) -> Map<Seq<char>, Seq<Value>> {
    let base = if columns.dom().contains(name) {
        columns[name]
    } else {
        nulls(len)
    };
    columns.insert(name, base + values)
}

/// The columns after every entry of `input` went to the column of its name,
/// one entry after the other.
pub open spec fn with_columns(
    columns: Map<Seq<char>, Seq<Value>>,
    len: nat,
    input: Seq<Entry>,
) -> Map<Seq<char>, Seq<Value>>
    decreases input.len(),
{
    if input.len() == 0 {
        columns
    } else {
        with_values(
            with_columns(columns, len, input.drop_last()),
            len,
            input.last().0,
            input.last().1,
        )
    }
}

/// `column`, filled up with nulls to `target` values if it has fewer.
pub open spec fn pad(column: Seq<Value>, target: nat) -> Seq<Value> {
    if column.len() < target {
        column + nulls((target - column.len()) as nat)
    } else {
        column
    }
}

/// Every column filled up with nulls to `target` values.
pub open spec fn extended(columns: Map<Seq<char>, Seq<Value>>, target: nat) -> Map<
    Seq<char>,
    Seq<Value>,
> {
    Map::new(
        |name: Seq<char>| columns.dom().contains(name),
        |name: Seq<char>| pad(columns[name], target),
    )
}

/// Every column holds exactly `len` values.
pub open spec fn all_have_len(columns: Map<Seq<char>, Seq<Value>>, len: nat) -> bool {
    forall|name: Seq<char>| columns.dom().contains(name) ==> (#[trigger] columns[name]).len() == len
}

/// Number of values that the entries of `input` hold for the column `name`.
pub open spec fn appended_len(input: Seq<Entry>, name: Seq<char>) -> nat
    decreases input.len(),
{
    if input.len() == 0 {
        0
    } else if input.last().0 == name {
        appended_len(input.drop_last(), name) + input.last().1.len()
    } else {
        appended_len(input.drop_last(), name)
    }
}

/// After `input` went into columns of `len` values each, a column holds
/// `len` values and those that `input` had for it.
pub proof fn lemma_with_columns_len(
    columns: Map<Seq<char>, Seq<Value>>,
    len: nat,
    input: Seq<Entry>,
    name: Seq<char>,
)
    requires
        all_have_len(columns, len),
    ensures
        with_columns(columns, len, input).dom().contains(name) <==> columns.dom().contains(name)
            || names_of(input).contains(name),
        with_columns(columns, len, input).dom().contains(name) ==> with_columns(
            columns,
            len,
            input,
        )[name].len() == len + appended_len(input, name),
    decreases input.len(),
{
    if input.len() > 0 {
        let front = input.drop_last();
        lemma_with_columns_len(columns, len, front, name);
        lemma_with_columns_len(columns, len, front, input.last().0);
        assert(names_of(front) =~= names_of(input).drop_last());
        if names_of(input).contains(name) {
            let i = choose|i: int| 0 <= i < input.len() && names_of(input)[i] == name;
            if i < front.len() {
                assert(names_of(front)[i] == name);
            }
        }
        if names_of(front).contains(name) {
            let i = choose|i: int| 0 <= i < front.len() && names_of(front)[i] == name;
            assert(names_of(input)[i] == name);
        }
        assert(names_of(input)[input.len() - 1] == input.last().0);
        if !with_columns(columns, len, front).dom().contains(input.last().0) {
            lemma_appended_none(front, input.last().0);
        }
    }
}

/// Entries that do not name a column hold nothing for it.
pub proof fn lemma_appended_none(input: Seq<Entry>, name: Seq<char>)
    requires
        !names_of(input).contains(name),
    ensures
        appended_len(input, name) == 0,
    decreases input.len(),
{
    if input.len() > 0 {
        let front = input.drop_last();
        assert(names_of(input)[input.len() - 1] == input.last().0);
        assert forall|i: int| 0 <= i < front.len() implies names_of(front)[i] != name by {
            assert(names_of(input)[i] == names_of(front)[i]);
        }
        lemma_appended_none(front, name);
    }
}

/// Entries with distinct names and one value each hold one value for a
/// column that they name.
pub proof fn lemma_appended_once(input: Seq<Entry>, name: Seq<char>)
    requires
        names_of(input).no_duplicates(),
        forall|i: int| 0 <= i < input.len() ==> (#[trigger] input[i]).1.len() == 1,
        names_of(input).contains(name),
    ensures
        appended_len(input, name) == 1,
    decreases input.len(),
{
    let front = input.drop_last();
    assert(names_of(front) =~= names_of(input).drop_last());
    let last = input.len() - 1;
    assert(names_of(input)[last] == input.last().0);
    if input.last().0 == name {
        assert forall|i: int| 0 <= i < front.len() implies names_of(front)[i] != name by {
            assert(names_of(input)[i] != names_of(input)[last]);
        }
        lemma_appended_none(front, name);
        assert(input[last].1.len() == 1);
    } else {
        let i = choose|i: int| 0 <= i < input.len() && names_of(input)[i] == name;
        assert(names_of(front)[i] == name);
        assert forall|i: int| 0 <= i < front.len() implies (#[trigger] front[i]).1.len() == 1 by {
            assert(input[i].1.len() == 1);
        }
        lemma_appended_once(front, name);
    }
}

/// After a row with distinct column names went into columns of `len` values
/// each and the columns were filled up, every column holds `len + 1` values.
pub proof fn lemma_row_keeps_aligned(
    columns: Map<Seq<char>, Seq<Value>>,
    len: nat,
    cells: Seq<Entry>,
)
    requires
        all_have_len(columns, len),
        names_of(cells).no_duplicates(),
        forall|i: int| 0 <= i < cells.len() ==> (#[trigger] cells[i]).1.len() == 1,
    ensures
        all_have_len(extended(with_columns(columns, len, cells), len + 1), len + 1),
{
    let filled = with_columns(columns, len, cells);
    assert forall|name: Seq<char>| extended(filled, len + 1).dom().contains(name) implies (
    #[trigger] extended(filled, len + 1)[name]).len() == len + 1 by {
        lemma_with_columns_len(columns, len, cells, name);
        if names_of(cells).contains(name) {
            lemma_appended_once(cells, name);
        } else {
            lemma_appended_none(cells, name);
        }
    }
}

/// After a batch with at least one column went into columns of `len` values
/// each and the columns were filled up to the longest column of the batch,
/// every column holds as many values as that one.
pub proof fn lemma_batch_keeps_aligned(
    columns: Map<Seq<char>, Seq<Value>>,
    len: nat,
    input: Seq<Entry>,
)
    requires
        all_have_len(columns, len),
        input.len() > 0,
    ensures
        all_have_len(
            extended(
                with_columns(columns, len, input),
                longest(with_columns(columns, len, input), names_of(input)),
            ),
            longest(with_columns(columns, len, input), names_of(input)),
        ),
{
    let filled = with_columns(columns, len, input);
    let target = longest(filled, names_of(input));
    lemma_longest(filled, names_of(input), 0);
    lemma_with_columns_len(columns, len, input, names_of(input)[0]);
    assert(names_of(input).contains(names_of(input)[0]));
    assert(target >= len);
    assert forall|name: Seq<char>| extended(filled, target).dom().contains(name) implies (
    #[trigger] extended(filled, target)[name]).len() == target by {
        lemma_with_columns_len(columns, len, input, name);
        if names_of(input).contains(name) {
            let i = choose|i: int| 0 <= i < input.len() && names_of(input)[i] == name;
            lemma_longest(filled, names_of(input), i);
        } else {
            lemma_appended_none(input, name);
        }
    }
}

/// The greatest length among the columns named in `names`, 0 if there is none.
pub open spec fn longest(columns: Map<Seq<char>, Seq<Value>>, names: Seq<Seq<char>>) -> nat
    decreases names.len(),
{
    if names.len() == 0 {
        0
    } else {
        let before = longest(columns, names.drop_last());
        let here = columns[names.last()].len();
        if before >= here {
            before
        } else {
            here
        }
    }
}

/// A row as a specification sees it: one single-valued entry per cell.
pub open spec fn row_entries(row: Seq<(String, RawVal)>) -> Seq<Entry> {
    row.map_values(|cell: (String, RawVal)| (cell.0@, seq![cell.1@]))
}

/// The cells of a row by column: one cell for every name, in the order in
/// which the names first occur. Of two cells with one name the later one
/// counts.
pub open spec fn row_cells(row: Seq<Entry>) -> Seq<Entry>
    decreases row.len(),
{
    if row.len() == 0 {
        Seq::empty()
    } else {
        let earlier = row_cells(row.drop_last());
        let cell = row.last();
        if names_of(earlier).contains(cell.0) {
            earlier.update(names_of(earlier).index_of(cell.0), cell)
        } else {
            earlier.push(cell)
        }
    }
}

/// The columns after one row went into columns of `len` values each: every
/// cell goes to the column of its name, and a column without a cell gets a
/// null.
pub open spec fn with_row(columns: Map<Seq<char>, Seq<Value>>, len: nat, row: Seq<Entry>) -> Map<
    Seq<char>,
    Seq<Value>,
> {
    extended(with_columns(columns, len, row_cells(row)), len + 1)
}

/// The number of rows after a batch of columns went into `len` rows: that
/// of the longest column that the batch names. A batch without columns
/// leaves the rows as they are.
pub open spec fn batch_len(columns: Map<Seq<char>, Seq<Value>>, len: nat, batch: Seq<Entry>) -> nat {
    if batch.len() == 0 {
        len
    } else {
        longest(with_columns(columns, len, batch), names_of(batch))
    }
}

/// The columns after a batch of columns went into `len` rows: every column
/// of the batch is appended to the column of its name, and every column is
/// filled up with nulls to the new number of rows. A batch without columns
/// leaves the columns as they are.
pub open spec fn with_batch(columns: Map<Seq<char>, Seq<Value>>, len: nat, batch: Seq<Entry>) -> Map<
    Seq<char>,
    Seq<Value>,
> {
    if batch.len() == 0 {
        columns
    } else {
        extended(with_columns(columns, len, batch), batch_len(columns, len, batch))
    }
}

/// The cells of a row have distinct names, and one value each if the row
/// has. A row with distinct names is its cells.
pub proof fn lemma_row_cells(row: Seq<Entry>)
    ensures
        names_of(row_cells(row)).no_duplicates(),
        forall|name: Seq<char>|
            names_of(row_cells(row)).contains(name) <==> names_of(row).contains(name),
        (forall|i: int| 0 <= i < row.len() ==> (#[trigger] row[i]).1.len() == 1) ==> forall|i: int|
            0 <= i < row_cells(row).len() ==> (#[trigger] row_cells(row)[i]).1.len() == 1,
        names_of(row).no_duplicates() ==> row_cells(row) == row,
    decreases row.len(),
{
    if row.len() > 0 {
        let front = row.drop_last();
        let earlier = row_cells(front);
        let cell = row.last();
        lemma_row_cells(front);
        assert(names_of(front) =~= names_of(row).drop_last());
        assert(names_of(row)[row.len() - 1] == cell.0);
        let cells = row_cells(row);
        if names_of(earlier).contains(cell.0) {
            let p = names_of(earlier).index_of(cell.0);
            assert(names_of(cells) =~= names_of(earlier));
        } else {
            assert(names_of(cells) =~= names_of(earlier).push(cell.0));
        }
        assert forall|name: Seq<char>| names_of(cells).contains(name) <==> names_of(row).contains(
            name,
        ) by {
            if names_of(row).contains(name) {
                let i = names_of(row).index_of(name);
                if i < front.len() {
                    assert(names_of(front)[i] == name);
                    assert(names_of(front).contains(name));
                    assert(names_of(earlier).contains(name));
                    let j = names_of(earlier).index_of(name);
                    assert(names_of(cells)[j] == name || names_of(cells).contains(name));
                } else {
                    if names_of(earlier).contains(cell.0) {
                        let j = names_of(earlier).index_of(cell.0);
                        assert(names_of(cells)[j] == name);
                    } else {
                        assert(names_of(cells)[earlier.len() as int] == name);
                    }
                }
            }
            if names_of(cells).contains(name) {
                let j = names_of(cells).index_of(name);
                if j < earlier.len() && names_of(earlier)[j] == name {
                    assert(names_of(earlier).contains(name));
                    assert(names_of(front).contains(name));
                    let i = names_of(front).index_of(name);
                    assert(names_of(row)[i] == name);
                } else {
                    assert(name == cell.0);
                }
            }
        }
        if forall|i: int| 0 <= i < row.len() ==> (#[trigger] row[i]).1.len() == 1 {
            assert forall|i: int| 0 <= i < front.len() implies (#[trigger] front[i]).1.len()
                == 1 by {
                assert(row[i].1.len() == 1);
            }
            assert(cell.1.len() == 1);
        }
        if names_of(row).no_duplicates() {
            assert(names_of(front).no_duplicates());
            if names_of(earlier).contains(cell.0) {
                let i = names_of(front).index_of(cell.0);
                assert(names_of(row)[i] == names_of(row)[row.len() - 1]);
            }
            assert(cells =~= row);
        }
    }
}

/// Untyped columns as a specification sees them.
pub open spec fn untyped_entries(columns: Seq<(String, Vec<RawVal>)>) -> Seq<Entry> {
    columns.map_values(|c: (String, Vec<RawVal>)| (c.0@, c.1@.map_values(|v: RawVal| v@)))
}

/// Typed columns as a specification sees them.
pub open spec fn typed_entries(columns: Seq<(String, InputColumn)>) -> Seq<Entry> {
    columns.map_values(|c: (String, InputColumn)| (c.0@, c.1.rows()))
}

/// The names of distinct entries are exactly the names of their columns, and
/// every entry is the column of its name.
pub proof fn lemma_columns_of(entries: Seq<Entry>)
    ensures
        forall|name: Seq<char>|
            #![trigger columns_of(entries).dom().contains(name)]
            #![trigger names_of(entries).contains(name)]
            columns_of(entries).dom().contains(name) <==> names_of(entries).contains(name),
        names_of(entries).no_duplicates() ==> forall|i: int|
            0 <= i < entries.len() ==> columns_of(entries)[(#[trigger] entries[i]).0] == entries[i].1,
    decreases entries.len(),
{
    if entries.len() > 0 {
        let front = entries.drop_last();
        lemma_columns_of(front);
        assert(names_of(front) =~= names_of(entries).drop_last());
        assert forall|name: Seq<char>|
            #![trigger columns_of(entries).dom().contains(name)]
            #![trigger names_of(entries).contains(name)]
            columns_of(entries).dom().contains(name) <==> names_of(entries).contains(name) by {
            if names_of(entries).contains(name) {
                let i = choose|i: int| 0 <= i < entries.len() && names_of(entries)[i] == name;
                if i < front.len() {
                    assert(names_of(front)[i] == name);
                }
            }
            if names_of(front).contains(name) {
                let i = choose|i: int| 0 <= i < front.len() && names_of(front)[i] == name;
                assert(names_of(entries)[i] == name);
            }
            assert(names_of(entries)[entries.len() - 1] == entries.last().0);
        }
        if names_of(entries).no_duplicates() {
            assert(names_of(front).no_duplicates());
            assert forall|i: int| 0 <= i < entries.len() implies columns_of(entries)[(
            #[trigger] entries[i]).0] == entries[i].1 by {
                if i < front.len() {
                    assert(names_of(entries)[i] != names_of(entries)[entries.len() - 1]);
                    assert(front[i] == entries[i]);
                }
            }
        }
    }
}

/// Replacing the values of one of several distinct entries replaces the
/// column of its name.
pub proof fn lemma_columns_update(entries: Seq<Entry>, i: int, values: Seq<Value>)
    requires
        0 <= i < entries.len(),
        names_of(entries).no_duplicates(),
    ensures
        columns_of(entries.update(i, (entries[i].0, values))) == columns_of(entries).insert(
            entries[i].0,
            values,
        ),
        names_of(entries.update(i, (entries[i].0, values))) == names_of(entries),
    decreases entries.len(),
{
    let changed = entries.update(i, (entries[i].0, values));
    assert(names_of(changed) =~= names_of(entries));
    let front = entries.drop_last();
    assert(names_of(front) =~= names_of(entries).drop_last());
    if i == entries.len() - 1 {
        assert(changed.drop_last() =~= front);
        assert(columns_of(changed) =~= columns_of(entries).insert(entries[i].0, values));
    } else {
        lemma_columns_update(front, i, values);
        assert(changed.drop_last() =~= front.update(i, (entries[i].0, values)));
        assert(names_of(entries)[i] != names_of(entries)[entries.len() - 1]);
        assert(columns_of(changed) =~= columns_of(entries).insert(entries[i].0, values));
    }
}

/// Padding every entry pads every column.
pub proof fn lemma_columns_padded(entries: Seq<Entry>, padded: Seq<Entry>, target: nat)
    requires
        padded.len() == entries.len(),
        forall|i: int|
            0 <= i < entries.len() ==> (#[trigger] padded[i]) == (
                entries[i].0,
                pad(entries[i].1, target),
            ),
    ensures
        columns_of(padded) == extended(columns_of(entries), target),
        names_of(padded) == names_of(entries),
    decreases entries.len(),
{
    assert(names_of(padded) =~= names_of(entries));
    if entries.len() > 0 {
        lemma_columns_padded(entries.drop_last(), padded.drop_last(), target);
    }
    assert(columns_of(padded) =~= extended(columns_of(entries), target));
}

/// The longest of the named columns holds no fewer values than any of them.
pub proof fn lemma_longest(columns: Map<Seq<char>, Seq<Value>>, names: Seq<Seq<char>>, k: int)
    requires
        0 <= k < names.len(),
    ensures
        columns[names[k]].len() <= longest(columns, names),
    decreases names.len(),
{
    if k < names.len() - 1 {
        lemma_longest(columns, names.drop_last(), k);
    }
}

/// What a row holds for the column `name`: the value of the last cell of
/// that name, a null if there is no such cell.
pub open spec fn cell_value(row: Seq<Entry>, name: Seq<char>) -> Seq<Value>
    decreases row.len(),
{
    if row.len() == 0 {
        seq![Value::Null]
    } else if row.last().0 == name {
        row.last().1
    } else {
        cell_value(row.drop_last(), name)
    }
}

/// The cell of a name among the cells of a row holds what the row holds
/// for that name.
pub proof fn lemma_cell_value(row: Seq<Entry>, name: Seq<char>)
    requires
        names_of(row).contains(name),
    ensures
        names_of(row_cells(row)).contains(name),
        row_cells(row)[names_of(row_cells(row)).index_of(name)] == (name, cell_value(row, name)),
    decreases row.len(),
{
    lemma_row_cells(row);
    let front = row.drop_last();
    let earlier = row_cells(front);
    let cell = row.last();
    let cells = row_cells(row);
    lemma_row_cells(front);
    assert(names_of(front) =~= names_of(row).drop_last());
    assert(names_of(row)[row.len() - 1] == cell.0);
    let at = names_of(cells).index_of(name);
    assert(names_of(cells)[at] == name);
    if names_of(earlier).contains(cell.0) {
        let p = names_of(earlier).index_of(cell.0);
        assert(names_of(cells) =~= names_of(earlier));
        if cell.0 == name {
            assert(names_of(cells)[p] == names_of(cells)[at]);
        } else {
            let i = names_of(row).index_of(name);
            assert(names_of(front)[i] == name);
            lemma_cell_value(front, name);
            let q = names_of(earlier).index_of(name);
            assert(names_of(cells)[q] == names_of(cells)[at]);
        }
    } else {
        assert(names_of(cells) =~= names_of(earlier).push(cell.0));
        if cell.0 == name {
            assert(names_of(cells)[earlier.len() as int] == names_of(cells)[at]);
        } else {
            let i = names_of(row).index_of(name);
            assert(names_of(front)[i] == name);
            lemma_cell_value(front, name);
            let q = names_of(earlier).index_of(name);
            assert(names_of(cells)[q] == names_of(cells)[at]);
        }
    }
}

/// After entries with distinct names went into the columns, the column of
/// an entry holds what it held, or `len` nulls if it is new, and then the
/// values of the entry; every other column is as it was.
pub proof fn lemma_with_distinct(
    columns: Map<Seq<char>, Seq<Value>>,
    len: nat,
    input: Seq<Entry>,
    name: Seq<char>,
)
    requires
        names_of(input).no_duplicates(),
    ensures
        with_columns(columns, len, input).dom().contains(name) <==> columns.dom().contains(name)
            || names_of(input).contains(name),
        names_of(input).contains(name) ==> with_columns(columns, len, input)[name] == (if columns.dom(
        ).contains(name) {
            columns[name]
        } else {
            nulls(len)
        }) + input[names_of(input).index_of(name)].1,
        !names_of(input).contains(name) && columns.dom().contains(name) ==> with_columns(
            columns,
            len,
            input,
        )[name] == columns[name],
    decreases input.len(),
{
    if input.len() > 0 {
        let front = input.drop_last();
        let last = input.len() - 1;
        assert(names_of(front) =~= names_of(input).drop_last());
        assert(names_of(input)[last] == input.last().0);
        lemma_with_distinct(columns, len, front, name);
        lemma_with_distinct(columns, len, front, input.last().0);
        assert(!names_of(front).contains(input.last().0)) by {
            if names_of(front).contains(input.last().0) {
                let i = names_of(front).index_of(input.last().0);
                assert(names_of(input)[i] == names_of(input)[last]);
            }
        }
        if names_of(front).contains(name) {
            let i = names_of(front).index_of(name);
            assert(names_of(input)[i] == name);
            let at = names_of(input).index_of(name);
            assert(names_of(input)[at] == names_of(input)[i]);
        }
        if names_of(input).contains(name) {
            let at = names_of(input).index_of(name);
            assert(names_of(input)[at] == name);
            if at < last {
                assert(names_of(front)[at] == name);
                let i = names_of(front).index_of(name);
                assert(names_of(input)[i] == names_of(input)[at]);
            }
        }
    }
}

/// What a row does to a column: after a row went into aligned columns, the
/// columns are those that there were and those that the row names; a column
/// that there was holds its values and then what the row holds for it, and
/// a new column starts with a null for every earlier row.
pub proof fn lemma_with_row(
    columns: Map<Seq<char>, Seq<Value>>,
    len: nat,
    row: Seq<Entry>,
    name: Seq<char>,
)
    requires
        all_have_len(columns, len),
        forall|i: int| 0 <= i < row.len() ==> (#[trigger] row[i]).1.len() == 1,
    ensures
        with_row(columns, len, row).dom().contains(name) <==> columns.dom().contains(name)
            || names_of(row).contains(name),
        with_row(columns, len, row).dom().contains(name) ==> with_row(columns, len, row)[name] == (
        if columns.dom().contains(name) {
            columns[name]
        } else {
            nulls(len)
        }) + (if names_of(row).contains(name) {
            cell_value(row, name)
        } else {
            seq![Value::Null]
        }),
{
    let cells = row_cells(row);
    let filled = with_columns(columns, len, cells);
    lemma_row_cells(row);
    lemma_with_distinct(columns, len, cells, name);
    if names_of(row).contains(name) {
        lemma_cell_value(row, name);
        let at = names_of(cells).index_of(name);
        assert(cells[at].1.len() == 1);
        assert(nulls(len).len() == len);
    } else if columns.dom().contains(name) {
        assert(filled[name] == columns[name]);
        assert(nulls(1) =~= seq![Value::Null]);
    }
}

/// The cells of a row by column: of two cells with one name the later one
/// replaces the earlier.
pub fn cells_of(row: Vec<(String, RawVal)>) -> (cells: Vec<(String, RawVal)>)
    ensures
        row_entries(cells@) == row_cells(row_entries(row@)),
{
    let mut row = row;
    let ghost all = row_entries(row@);
    let mut cells: Vec<(String, RawVal)> = Vec::new();
    let mut k: usize = 0;
    assert(row_entries(cells@) =~= row_cells(all.take(0)));
    while k < row.len()
        invariant
            k <= all.len(),
            row@.len() == all.len(),
            forall|i: int| k <= i < all.len() ==> (#[trigger] row_entries(row@)[i]) == all[i],
            row_entries(cells@) == row_cells(all.take(k as int)),
        decreases all.len() - k,
    {
        let mut cell = (String::new(), RawVal::Null);
        assert(row_entries(row@)[k as int] == all[k as int]);
        let ghost rest = row@;
        core::mem::swap(&mut cell, &mut row[k]);
        proof {
            assert forall|i: int| k + 1 <= i < all.len() implies (#[trigger] row_entries(row@)[i])
                == all[i] by {
                assert(row_entries(rest)[i] == all[i]);
            }
            assert(all.take(k + 1).drop_last() =~= all.take(k as int));
            assert(all.take(k + 1).last() == all[k as int]);
            lemma_row_cells(all.take(k as int));
        }
        let ghost earlier = row_entries(cells@);
        let mut at: usize = 0;
        let mut found = false;
        while !found && at < cells.len()
            invariant
                at <= cells@.len(),
                earlier == row_entries(cells@),
                forall|i: int| 0 <= i < at ==> names_of(earlier)[i] != cell.0@,
                found ==> at < cells@.len() && names_of(earlier)[at as int] == cell.0@,
            decreases cells@.len() - at + if found {
                0int
            } else {
                1int
            },
        {
            if cells[at].0 == cell.0 {
                found = true;
            } else {
                at += 1;
            }
        }
        if found {
            proof {
                assert(names_of(earlier).contains(cell.0@));
                let p = names_of(earlier).index_of(cell.0@);
                assert(names_of(earlier)[p] == names_of(earlier)[at as int]);
                assert(p == at);
            }
            cells.set(at, cell);
            assert(row_entries(cells@) =~= earlier.update(at as int, all[k as int]));
        } else {
            cells.push(cell);
            assert(row_entries(cells@) =~= earlier.push(all[k as int]));
        }
        k += 1;
    }
    assert(all.take(k as int) =~= all);
    cells
}

/// Every row keeps the buffer aligned: after a row went into columns of
/// `len` values each, every column holds `len + 1` values.
pub proof fn lemma_with_row_aligned(columns: Map<Seq<char>, Seq<Value>>, len: nat, row: Seq<Entry>)
    requires
        all_have_len(columns, len),
        forall|i: int| 0 <= i < row.len() ==> (#[trigger] row[i]).1.len() == 1,
    ensures
        all_have_len(with_row(columns, len, row), len + 1),
{
    lemma_row_cells(row);
    lemma_row_keeps_aligned(columns, len, row_cells(row));
}

/// Every batch keeps the buffer aligned: after a batch went into columns of
/// `len` values each, every column holds as many values as there are rows.
pub proof fn lemma_with_batch_aligned(
    columns: Map<Seq<char>, Seq<Value>>,
    len: nat,
    batch: Seq<Entry>,
)
    requires
        all_have_len(columns, len),
    ensures
        all_have_len(with_batch(columns, len, batch), batch_len(columns, len, batch)),
        batch_len(columns, len, batch) >= len,
{
    if batch.len() > 0 {
        lemma_batch_keeps_aligned(columns, len, batch);
        let filled = with_columns(columns, len, batch);
        lemma_longest(filled, names_of(batch), 0);
        lemma_with_columns_len(columns, len, batch, names_of(batch)[0]);
        assert(names_of(batch).contains(names_of(batch)[0]));
    }
}

impl Buffer {
    /// The columns as a specification sees them, in the order in which their
    /// names were first seen.
    pub open spec fn entries(&self) -> Seq<Entry> {
        self.buffer@.map_values(|c: (String, MixedCol)| (c.0@, c.1@))
    }

    /// The names of the columns.
    pub open spec fn names(&self) -> Seq<Seq<char>> {
        names_of(self.entries())
    }

    /// No two columns have the same name.
    pub open spec fn distinct(&self) -> bool {
        self.names().no_duplicates()
    }

    /// Every column holds exactly `length` values.
    pub open spec fn aligned(&self) -> bool {
        all_have_len(self.columns(), self.length as nat)
    }

    /// The values of every column, by the column's name.
    pub open spec fn columns(&self) -> Map<Seq<char>, Seq<Value>> {
        columns_of(self.entries())
    }

    /// Column names are distinct and every column holds `length` values.
    pub open spec fn wf(&self) -> bool {
        self.distinct() && self.aligned()
    }

    /// A buffer without rows and columns.
    pub fn new() -> (buffer: Buffer)
        ensures
            buffer.wf(),
            buffer.length == 0,
            buffer.columns() == Map::<Seq<char>, Seq<Value>>::empty(),
    {
        Buffer { buffer: Vec::new(), length: 0 }
    }

    /// The position of the column `name`, if there is one.
    pub fn find(&self, name: &String) -> (found: Option<usize>)
        ensures
            match found {
                Some(i) => i < self.buffer@.len() && self.names()[i as int] == name@,
                None => !self.names().contains(name@),
            },
    {
        let mut i: usize = 0;
        while i < self.buffer.len()
            invariant
                i <= self.buffer@.len(),
                forall|k: int| 0 <= k < i ==> self.names()[k] != name@,
            decreases self.buffer@.len() - i,
        {
            if self.buffer[i].0 == *name {
                return Some(i);
            }
            i += 1;
        }
        None
    }

    /// The position of the column `name`, which is added as `len` nulls if it is new.
    fn column_index(&mut self, name: String, len: usize) -> (i: usize)
        requires
            old(self).distinct(),
        ensures
            final(self).distinct(),
            final(self).length == old(self).length,
            i < final(self).buffer@.len(),
            final(self).entries()[i as int] == (
                name@,
                if old(self).columns().dom().contains(name@) {
                    old(self).columns()[name@]
                } else {
                    nulls(len as nat)
                },
            ),
            final(self).columns() == old(self).columns().insert(
                name@,
                final(self).entries()[i as int].1,
            ),
            final(self).entries().take(old(self).buffer@.len() as int) == old(self).entries(),
            final(self).buffer@.len() == old(self).buffer@.len() || (final(self).buffer@.len()
                == old(self).buffer@.len() + 1 && i == old(self).buffer@.len()),
    {
        proof {
            lemma_columns_of(self.entries());
        }
        match self.find(&name) {
            Some(i) => {
                assert(self.entries()[i as int].0 == name@);
                assert(names_of(self.entries())[i as int] == name@);
                assert(self.columns().dom().contains(name@));
                assert(self.columns()[name@] == self.entries()[i as int].1);
                assert(self.columns() =~= self.columns().insert(name@, self.entries()[i as int].1));
                assert(self.entries().take(self.buffer@.len() as int) =~= self.entries());
                i
            },
            None => {
                let ghost before = self.entries();
                let col = MixedCol::with_nulls(len);
                self.buffer.push((name, col));
                proof {
                    assert(self.entries() =~= before.push((name@, nulls(len as nat))));
                    assert(self.entries().drop_last() =~= before);
                    assert(self.entries().take(old(self).buffer@.len() as int) =~= before);
                    assert(names_of(self.entries()) =~= names_of(before).push(name@));
                }
                self.buffer.len() - 1
            },
        }
    }

    /// Appends one row. A column that the row does not mention gets a null.
    /// Where the row names a column twice, the later value counts.
    pub fn push_row(&mut self, row: Vec<(String, RawVal)>)
        requires
            old(self).distinct(),
            old(self).length < usize::MAX,
        ensures
            final(self).distinct(),
            final(self).length == old(self).length + 1,
            final(self).columns() == with_row(
                old(self).columns(),
                old(self).length as nat,
                row_entries(row@),
            ),
            old(self).aligned() ==> final(self).aligned(),
    {
        let cells = cells_of(row);
        proof {
            lemma_row_cells(row_entries(row@));
            if old(self).aligned() {
                lemma_with_row_aligned(
                    old(self).columns(),
                    old(self).length as nat,
                    row_entries(row@),
                );
            }
        }
        self.push_cells(cells);
    }

    /// Appends the cells of one row, one after the other, and gives every
    /// other column a null.
    fn push_cells(&mut self, row: Vec<(String, RawVal)>)
        requires
            old(self).distinct(),
            old(self).length < usize::MAX,
        ensures
            final(self).distinct(),
            final(self).length == old(self).length + 1,
            final(self).columns() == extended(
                with_columns(old(self).columns(), old(self).length as nat, row_entries(row@)),
                (old(self).length + 1) as nat,
            ),
    {
        let len = self.len();
        let mut row = row;
        let ghost cells = row_entries(row@);
        let mut k: usize = 0;
        while k < row.len()
            invariant
                k <= cells.len(),
                row@.len() == cells.len(),
                forall|i: int| k <= i < cells.len() ==> (#[trigger] row_entries(row@)[i]) == cells[i],
                self.distinct(),
                self.length == len,
                len == old(self).length,
                self.columns() == with_columns(
                    old(self).columns(),
                    len as nat,
                    cells.take(k as int),
                ),
            decreases cells.len() - k,
        {
            let mut cell = (String::new(), RawVal::Null);
            assert(row_entries(row@)[k as int] == cells[k as int]);
            let ghost rest = row@;
            core::mem::swap(&mut cell, &mut row[k]);
            proof {
                assert forall|i: int| k + 1 <= i < cells.len() implies (#[trigger] row_entries(
                    row@,
                )[i]) == cells[i] by {
                    assert(row_entries(rest)[i] == cells[i]);
                }
                assert(cells.take(k + 1).drop_last() =~= cells.take(k as int));
            }
            let (name, input_val) = cell;
            let ghost columns_before = self.columns();
            let i = self.column_index(name, len);
            let ghost entries_before = self.entries();
            self.buffer[i].1.push(input_val);
            proof {
                assert(self.entries()[i as int].1 =~= entries_before[i as int].1 + seq![input_val@]);
                assert(self.entries()[i as int].0 == entries_before[i as int].0);
                assert forall|k: int| 0 <= k < entries_before.len() && k != i
                    implies self.entries()[k]
                    == entries_before[k] by {}
                lemma_appended(
                    columns_before,
                    entries_before,
                    self.entries(),
                    i as int,
                    len as nat,
                    seq![input_val@],
                );
            }
            k += 1;
        }
        assert(cells.take(k as int) =~= cells);
        self.length += 1;
        self.extend_to_largest();
    }

    /// Appends a batch of rows given as typed columns. A column that the
    /// batch does not mention is filled up with nulls.
    pub fn push_typed_cols(&mut self, columns: Vec<(String, InputColumn)>)
        requires
            old(self).distinct(),
            forall|i: int| 0 <= i < columns@.len() ==> (#[trigger] columns@[i]).1.wf(),
        ensures
            final(self).distinct(),
            final(self).columns() == with_batch(
                old(self).columns(),
                old(self).length as nat,
                typed_entries(columns@),
            ),
            final(self).length == batch_len(
                old(self).columns(),
                old(self).length as nat,
                typed_entries(columns@),
            ),
            old(self).aligned() ==> final(self).aligned(),
    {
        if columns.len() == 0 {
            return ;
        }
        proof {
            if old(self).aligned() {
                lemma_with_batch_aligned(
                    old(self).columns(),
                    old(self).length as nat,
                    typed_entries(columns@),
                );
            }
        }
        let len = self.len();
        let mut new_length: usize = 0;
        let mut columns = columns;
        let ghost input = typed_entries(columns@);
        let mut k: usize = 0;
        while k < columns.len()
            invariant
                k <= input.len(),
                columns@.len() == input.len(),
                forall|i: int|
                    k <= i < input.len() ==> (#[trigger] typed_entries(columns@)[i]) == input[i]
                        && columns@[i].1.wf(),
                self.distinct(),
                self.length == len,
                len == old(self).length,
                self.columns() == with_columns(
                    old(self).columns(),
                    len as nat,
                    input.take(k as int),
                ),
                new_length == longest(self.columns(), names_of(input.take(k as int))),
            decreases input.len() - k,
        {
            let mut column = (String::new(), InputColumn::Null(0));
            assert(typed_entries(columns@)[k as int] == input[k as int]);
            let ghost rest = columns@;
            let ghost before = self.columns();
            core::mem::swap(&mut column, &mut columns[k]);
            proof {
                assert forall|i: int| k + 1 <= i < input.len() implies (#[trigger] typed_entries(
                    columns@,
                )[i]) == input[i] && columns@[i].1.wf() by {
                    assert(typed_entries(rest)[i] == input[i]);
                    assert(rest[i].1.wf());
                }
                assert(input.take(k + 1).drop_last() =~= input.take(k as int));
            }
            let (name, input_col) = column;
            let i = self.column_index(name, len);
            let ghost entries_before = self.entries();
            self.buffer[i].1.push_input(input_col);
            let col_len = self.buffer[i].1.len();
            proof {
                assert(self.entries()[i as int].0 == entries_before[i as int].0);
                assert forall|k: int| 0 <= k < entries_before.len() && k != i
                    implies self.entries()[k]
                    == entries_before[k] by {}
                lemma_appended(
                    before,
                    entries_before,
                    self.entries(),
                    i as int,
                    len as nat,
                    input[k as int].1,
                );
                lemma_columns_of(self.entries());
                lemma_with_columns_dom(old(self).columns(), len as nat, input.take(k as int));
                lemma_longest_kept(
                    before,
                    self.columns(),
                    input[k as int].0,
                    names_of(input.take(k as int)),
                );
                assert(names_of(input.take(k + 1)).drop_last() =~= names_of(input.take(k as int)));
                assert(names_of(input.take(k + 1)).last() == input[k as int].0);
            }
            new_length = if new_length >= col_len {
                new_length
            } else {
                col_len
            };
            k += 1;
        }
        assert(input.take(k as int) =~= input);
        self.length = new_length;
        self.extend_to_largest();
    }

    /// Appends a batch of rows given as untyped columns. A column that the
    /// batch does not mention is filled up with nulls.
    pub fn push_untyped_cols(&mut self, columns: Vec<(String, Vec<RawVal>)>)
        requires
            old(self).distinct(),
        ensures
            final(self).distinct(),
            final(self).columns() == with_batch(
                old(self).columns(),
                old(self).length as nat,
                untyped_entries(columns@),
            ),
            final(self).length == batch_len(
                old(self).columns(),
                old(self).length as nat,
                untyped_entries(columns@),
            ),
            old(self).aligned() ==> final(self).aligned(),
    {
        if columns.len() == 0 {
            return ;
        }
        proof {
            if old(self).aligned() {
                lemma_with_batch_aligned(
                    old(self).columns(),
                    old(self).length as nat,
                    untyped_entries(columns@),
                );
            }
        }
        let len = self.len();
        let mut new_length: usize = 0;
        let mut columns = columns;
        let ghost input = untyped_entries(columns@);
        let mut k: usize = 0;
        while k < columns.len()
            invariant
                k <= input.len(),
                columns@.len() == input.len(),
                forall|i: int|
                    k <= i < input.len() ==> (#[trigger] untyped_entries(columns@)[i]) == input[i],
                self.distinct(),
                self.length == len,
                len == old(self).length,
                self.columns() == with_columns(
                    old(self).columns(),
                    len as nat,
                    input.take(k as int),
                ),
                new_length == longest(self.columns(), names_of(input.take(k as int))),
            decreases input.len() - k,
        {
            let mut column = (String::new(), Vec::new());
            assert(untyped_entries(columns@)[k as int] == input[k as int]);
            let ghost rest = columns@;
            let ghost before = self.columns();
            core::mem::swap(&mut column, &mut columns[k]);
            proof {
                assert forall|i: int| k + 1 <= i < input.len() implies (#[trigger] untyped_entries(
                    columns@,
                )[i]) == input[i] by {
                    assert(untyped_entries(rest)[i] == input[i]);
                }
                assert(input.take(k + 1).drop_last() =~= input.take(k as int));
            }
            let (name, input_vals) = column;
            let i = self.column_index(name, len);
            let ghost entries_before = self.entries();
            self.buffer[i].1.push_all(input_vals);
            let col_len = self.buffer[i].1.len();
            proof {
                assert(self.entries()[i as int].0 == entries_before[i as int].0);
                assert forall|k: int| 0 <= k < entries_before.len() && k != i
                    implies self.entries()[k]
                    == entries_before[k] by {}
                lemma_appended(
                    before,
                    entries_before,
                    self.entries(),
                    i as int,
                    len as nat,
                    input[k as int].1,
                );
                lemma_columns_of(self.entries());
                lemma_with_columns_dom(old(self).columns(), len as nat, input.take(k as int));
                lemma_longest_kept(
                    before,
                    self.columns(),
                    input[k as int].0,
                    names_of(input.take(k as int)),
                );
                assert(names_of(input.take(k + 1)).drop_last() =~= names_of(input.take(k as int)));
                assert(names_of(input.take(k + 1)).last() == input[k as int].0);
            }
            new_length = if new_length >= col_len {
                new_length
            } else {
                col_len
            };
            k += 1;
        }
        assert(input.take(k as int) =~= input);
        self.length = new_length;
        self.extend_to_largest();
    }

    /// Fills every column that holds fewer than `length` values up with nulls.
    pub fn extend_to_largest(&mut self)
        ensures
            final(self).length == old(self).length,
            final(self).names() == old(self).names(),
            final(self).columns() == extended(old(self).columns(), old(self).length as nat),
            forall|i: int|
                0 <= i < final(self).buffer@.len() ==> (#[trigger] final(self).buffer@[i]).1@ == pad(
                    old(self).buffer@[i].1@,
                    old(self).length as nat,
                ),
    {
        let target_length = self.length;
        let ghost before = self.entries();
        let mut i: usize = 0;
        while i < self.buffer.len()
            invariant
                i <= self.buffer@.len(),
                self.length == target_length,
                self.buffer@.len() == before.len(),
                before == old(self).entries(),
                forall|k: int|
                    0 <= k < i ==> (#[trigger] self.entries()[k]) == (
                        before[k].0,
                        pad(before[k].1, target_length as nat),
                    ),
                forall|k: int| i <= k < before.len() ==> (#[trigger] self.entries()[k]) == before[k],
            decreases self.buffer@.len() - i,
        {
            let ghost current = self.entries();
            let col_length = self.buffer[i].1.len();
            assert(current[i as int] == before[i as int]);
            if col_length < target_length {
                self.buffer[i].1.push_nulls(target_length - col_length);
            }
            proof {
                assert forall|k: int| 0 <= k < i + 1 implies (#[trigger] self.entries()[k]) == (
                    before[k].0,
                    pad(before[k].1, target_length as nat),
                ) by {
                    if k < i {
                        assert(current[k] == (before[k].0, pad(before[k].1, target_length as nat)));
                    }
                }
                assert forall|k: int| i + 1 <= k < before.len() implies (
                #[trigger] self.entries()[k]) == before[k] by {
                    assert(current[k] == before[k]);
                }
            }
            i += 1;
        }
        proof {
            lemma_columns_padded(before, self.entries(), target_length as nat);
            assert forall|i: int| 0 <= i < self.buffer@.len() implies (
            #[trigger] self.buffer@[i]).1@ == pad(
                old(self).buffer@[i].1@,
                old(self).length as nat,
            ) by {
                assert(self.entries()[i] == (before[i].0, pad(before[i].1, target_length as nat)));
            }
        }
    }

    /// Number of rows.
    pub fn len(&self) -> (n: usize)
        ensures
            n == self.length,
    {
        self.length
    }

    /// Bytes of heap that the columns take, as far as a `usize` can hold it.
    pub open spec fn spec_heap_size(&self) -> usize {
        saturated(value_count(self.entries()) * VALUE_BYTES as nat)
    }

    /// Bytes of heap that the columns take, as far as a `usize` can hold it.
    pub fn heap_size_of_children(&self) -> (bytes: usize)
        ensures
            bytes == self.spec_heap_size(),
    {
        let mut bytes: usize = 0;
        let mut i: usize = 0;
        assert(self.entries().take(0) =~= Seq::<Entry>::empty());
        while i < self.buffer.len()
            invariant
                i <= self.buffer@.len(),
                bytes == saturated(value_count(self.entries().take(i as int)) * VALUE_BYTES as nat),
            decreases self.buffer@.len() - i,
        {
            // Currently does not take into account the memory of String.
            let size = self.buffer[i].1.heap_size_of_children();
            proof {
                assert(self.entries().take(i + 1).drop_last() =~= self.entries().take(i as int));
                assert(self.entries().take(i + 1).last().1 == self.buffer@[i as int].1@);
                let earlier = value_count(self.entries().take(i as int));
                let here = self.buffer@[i as int].1@.len();
                assert((earlier + here) * VALUE_BYTES == earlier * VALUE_BYTES + here
                    * VALUE_BYTES) by (nonlinear_arith);
            }
            bytes = if size > usize::MAX - bytes {
                usize::MAX
            } else {
                bytes + size
            };
            i += 1;
        }
        assert(self.entries().take(i as int) =~= self.entries());
        bytes
    }

    /// A copy of the buffer that holds the columns named in `columns` only.
    /// If the buffer has none of them, the copy holds the buffer's first
    /// column, so that it still shows how many rows there are.
    pub fn filter(&self, columns: &[String]) -> (copy: Buffer)
        requires
            self.distinct(),
            self.buffer@.len() > 0,
        ensures
            copy.distinct(),
            copy.length == self.length,
            copy.columns() == filtered(self.columns(), self.names()[0], requested(columns@)),
            self.aligned() ==> copy.aligned(),
    {
        let mut result = Buffer { buffer: Vec::new(), length: self.length };
        let mut k: usize = 0;
        proof {
            lemma_columns_of(self.entries());
            assert(result.columns() =~= self.columns().restrict(requested(columns@.take(0))));
        }
        while k < columns.len()
            invariant
                k <= columns@.len(),
                self.distinct(),
                result.distinct(),
                result.length == self.length,
                result.columns() == self.columns().restrict(requested(columns@.take(k as int))),
            decreases columns@.len() - k,
        {
            let name = &columns[k];
            let ghost before = result.entries();
            proof {
                lemma_columns_of(self.entries());
                lemma_columns_of(before);
                lemma_requested_push(columns@, k as int);
            }
            let ghost wanted = requested(columns@.take(k as int));
            if let Some(at) = self.find(name) {
                assert(self.entries()[at as int].0 == name@);
                assert(names_of(self.entries())[at as int] == name@);
                assert(self.columns().dom().contains(name@));
                assert(self.columns()[name@] == self.entries()[at as int].1);
                if result.find(name).is_none() {
                    let col = self.buffer[at].1.clone();
                    result.buffer.push((name.clone(), col));
                    proof {
                        assert(result.entries()
                            =~= before.push((name@, self.entries()[at as int].1)));
                        assert(result.entries().drop_last() =~= before);
                        assert(names_of(result.entries()) =~= names_of(before).push(name@));
                        assert(result.columns() == columns_of(before).insert(
                            name@,
                            self.columns()[name@],
                        ));
                        assert(result.columns() =~= self.columns().restrict(wanted.insert(name@)));
                    }
                } else {
                    assert(columns_of(before).dom().contains(name@));
                    assert(wanted.contains(name@));
                    assert(wanted.insert(name@) =~= wanted);
                }
            } else {
                assert(!self.columns().dom().contains(name@));
                assert(self.columns().restrict(wanted.insert(name@)) =~= self.columns().restrict(
                    wanted,
                ));
            }
            assert(result.columns() =~= self.columns().restrict(requested(columns@.take(k + 1))));
            k += 1;
        }
        assert(columns@.take(k as int) =~= columns@);
        // Need at least one column to have a length
        if result.buffer.len() == 0 {
            let col = self.buffer[0].1.clone();
            result.buffer.push((self.buffer[0].0.clone(), col));
            proof {
                lemma_columns_of(self.entries());
                assert(result.entries() =~= seq![self.entries()[0]]);
                assert(result.entries().drop_last() =~= Seq::<Entry>::empty());
                assert(names_of(result.entries()) =~= seq![self.entries()[0].0]);
                assert(self.names()[0] == self.entries()[0].0);
                assert(self.columns()[self.entries()[0].0] == self.entries()[0].1);
                assert(result.entries().last() == self.entries()[0]);
                assert(columns_of(Seq::<Entry>::empty()) =~= Map::<Seq<char>, Seq<Value>>::empty());
                assert(result.columns() =~= Map::<Seq<char>, Seq<Value>>::empty().insert(
                    self.names()[0],
                    self.columns()[self.names()[0]],
                ));
            }
        } else {
            proof {
                lemma_columns_of(result.entries());
                assert(names_of(result.entries())[0] == result.entries()[0].0);
                assert(result.columns().dom().contains(result.entries()[0].0));
            }
        }
        result
    }
}

/// The columns among `columns` that `wanted` asks for, and the column
/// `first` alone if it asks for none of them.
pub open spec fn filtered(
    columns: Map<Seq<char>, Seq<Value>>,
    first: Seq<char>,
    wanted: Set<Seq<char>>,
) -> Map<Seq<char>, Seq<Value>> {
    if columns.restrict(wanted) == Map::<Seq<char>, Seq<Value>>::empty() {
        Map::<Seq<char>, Seq<Value>>::empty().insert(first, columns[first])
    } else {
        columns.restrict(wanted)
    }
}

/// The names that a list of column names asks for.
pub open spec fn requested(columns: Seq<String>) -> Set<Seq<char>> {
    Set::new(|name: Seq<char>| exists|i: int| 0 <= i < columns.len()
        && (#[trigger] columns[i])@ == name)
}

/// One more name in the list asks for one more column.
pub proof fn lemma_requested_push(columns: Seq<String>, k: int)
    requires
        0 <= k < columns.len(),
    ensures
        requested(columns.take(k + 1)) == requested(columns.take(k)).insert(columns[k]@),
{
    let shorter = columns.take(k);
    let longer = columns.take(k + 1);
    assert forall|name: Seq<char>| requested(longer).contains(name) <==> requested(shorter).insert(
        columns[k]@,
    ).contains(name) by {
        if requested(longer).contains(name) {
            let i = choose|i: int| 0 <= i < longer.len() && (#[trigger] longer[i])@ == name;
            if i < k {
                assert(shorter[i]@ == name);
            }
        }
        if requested(shorter).contains(name) {
            let i = choose|i: int| 0 <= i < shorter.len() && (#[trigger] shorter[i])@ == name;
            assert(longer[i]@ == name);
        }
        assert(longer[k]@ == columns[k]@);
    }
    assert(requested(longer) =~= requested(shorter).insert(columns[k]@));
}

/// Every name of `input` names a column once `input` has gone in.
pub proof fn lemma_with_columns_dom(columns: Map<Seq<char>, Seq<Value>>, len: nat, input: Seq<Entry>)
    ensures
        forall|i: int|
            0 <= i < input.len() ==> with_columns(columns, len, input).dom().contains(
                #[trigger] names_of(input)[i],
            ),
        forall|name: Seq<char>|
            columns.dom().contains(name) ==> with_columns(columns, len, input).dom().contains(name),
    decreases input.len(),
{
    if input.len() > 0 {
        lemma_with_columns_dom(columns, len, input.drop_last());
        assert forall|i: int| 0 <= i < input.len() implies with_columns(
            columns,
            len,
            input,
        ).dom().contains(#[trigger] names_of(input)[i]) by {
            if i < input.len() - 1 {
                assert(names_of(input.drop_last())[i] == names_of(input)[i]);
            }
        }
    }
}

/// Appending values to the column at position `i`, which `column_index` has
/// just found or made, amounts to `with_values` on the columns before.
pub proof fn lemma_appended(
    columns: Map<Seq<char>, Seq<Value>>,
    found: Seq<Entry>,
    after: Seq<Entry>,
    i: int,
    len: nat,
    appended: Seq<Value>,
)
    requires
        0 <= i < found.len(),
        names_of(found).no_duplicates(),
        found[i].1 == if columns.dom().contains(found[i].0) {
            columns[found[i].0]
        } else {
            nulls(len)
        },
        columns_of(found) == columns.insert(found[i].0, found[i].1),
        after.len() == found.len(),
        after[i] == (found[i].0, found[i].1 + appended),
        forall|k: int| 0 <= k < found.len() && k != i ==> after[k] == found[k],
    ensures
        columns_of(after) == with_values(columns, len, found[i].0, appended),
        names_of(after) == names_of(found),
{
    lemma_columns_update(found, i, found[i].1 + appended);
    assert(after =~= found.update(i, (found[i].0, found[i].1 + appended)));
    assert(columns_of(after) =~= with_values(columns, len, found[i].0, appended));
}

/// Number of values in all the columns together.
pub open spec fn value_count(entries: Seq<Entry>) -> nat
    decreases entries.len(),
{
    if entries.len() == 0 {
        0
    } else {
        value_count(entries.drop_last()) + entries.last().1.len()
    }
}

/// Changing the column `name` keeps the longest of the columns `names` at
/// least as long as it was, where no column gets shorter.
pub proof fn lemma_longest_kept(
    before: Map<Seq<char>, Seq<Value>>,
    after: Map<Seq<char>, Seq<Value>>,
    name: Seq<char>,
    names: Seq<Seq<char>>,
)
    requires
        forall|n: Seq<char>| n != name ==> after[n] == before[n],
        before.dom().contains(name) ==> before[name].len() <= after[name].len(),
        forall|i: int| 0 <= i < names.len() ==> before.dom().contains(#[trigger] names[i]),
    ensures
        longest(before, names) <= longest(after, names),
        longest(after, names) <= longest(before, names) || longest(after, names)
            <= after[name].len(),
    decreases names.len(),
{
    if names.len() > 0 {
        assert forall|i: int| 0 <= i < names.drop_last().len() implies before.dom().contains(
            #[trigger] names.drop_last()[i],
        ) by {
            assert(names.drop_last()[i] == names[i]);
        }
        lemma_longest_kept(before, after, name, names.drop_last());
        assert(before.dom().contains(names[names.len() - 1]));
    }
}

impl Default for Buffer {
    fn default() -> (buffer: Buffer)
        ensures
            buffer.wf(),
            buffer.length == 0,
            buffer.columns() == Map::<Seq<char>, Seq<Value>>::empty(),
    {
        Buffer::new()
    }
}

} // verus!
