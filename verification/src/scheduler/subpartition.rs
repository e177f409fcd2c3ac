//! Grouping the columns of a partition into the units that are written to disk.

use std::cmp::Ordering;
use std::sync::Arc;

use itertools::Itertools;
use sha2::{Digest, Sha256};
use vstd::prelude::*;
use vstd::string::*;
use vstd::utf8::*;

use crate::engine::vec_data::{bytes_le, lemma_bytes_le_total, same_text, str_le};
use crate::locustdb::Options;
use crate::mem_store::column::Column;
use crate::mem_store::raw_col::saturated;
use crate::stringpack::arena_of;

verus! {

/// A unit of columns that is written to disk as one file.
#[derive(Debug, Clone, PartialEq, Eq)]
pub struct SubpartitionMetadata {
    /// The name of the file.
    pub subpartition_key: String,
    /// The heap bytes of the columns together.
    pub size_bytes: u64,
}

/// The heap bytes of the columns at the positions `group`.
pub open spec fn group_bytes(sizes: Seq<u64>, group: Seq<int>) -> nat
    decreases group.len(),
{
    if group.len() == 0 {
        0
    } else {
        group_bytes(sizes, group.drop_last()) + sizes[group.last()] as nat
    }
}

/// The greedy grouping of columns of the given sizes, in order: a column
/// joins the last group unless that group has columns already and would
/// take more than `max` bytes with it; then it starts a new group.
pub open spec fn packed(sizes: Seq<u64>, max: u64) -> Seq<Seq<int>>
    decreases sizes.len(),
{
    if sizes.len() == 0 {
        seq![Seq::<int>::empty()]
    } else {
        let groups = packed(sizes.drop_last(), max);
        let column = sizes.len() - 1;
        if groups.last().len() > 0 && group_bytes(sizes, groups.last()) + sizes[column] > max {
            groups.push(seq![column])
        } else {
            groups.update(groups.len() - 1, groups.last().push(column))
        }
    }
}

/// The positions of the groups one after the other.
pub open spec fn flattened(groups: Seq<Seq<int>>) -> Seq<int>
    decreases groups.len(),
{
    if groups.len() == 0 {
        Seq::empty()
    } else {
        flattened(groups.drop_last()) + groups.last()
    }
}

/// The sizes that matter for groups of positions below `n` are those of the
/// columns below `n`.
pub proof fn lemma_group_bytes_prefix(sizes: Seq<u64>, n: int, group: Seq<int>)
    requires
        0 <= n <= sizes.len(),
        forall|k: int| 0 <= k < group.len() ==> 0 <= #[trigger] group[k] < n,
    ensures
        group_bytes(sizes.take(n), group) == group_bytes(sizes, group),
    decreases group.len(),
{
    if group.len() > 0 {
        assert forall|k: int| 0 <= k < group.drop_last().len() implies 0
            <= #[trigger] group.drop_last()[k]
            < n by {
            assert(group.drop_last()[k] == group[k]);
        }
        lemma_group_bytes_prefix(sizes, n, group.drop_last());
        assert(0 <= group[group.len() - 1] < n);
    }
}

/// The greedy grouping holds every column once and in order. No group is
/// empty unless there is no column at all, and a group of several columns
/// takes at most `max` bytes.
pub proof fn lemma_packed(sizes: Seq<u64>, max: u64)
    ensures
        packed(sizes, max).len() >= 1,
        flattened(packed(sizes, max)) == Seq::new(sizes.len(), |i: int| i),
        forall|g: int, k: int|
            0 <= g < packed(sizes, max).len() && 0 <= k < packed(sizes, max)[g].len() ==> 0 <= (
            #[trigger] packed(sizes, max)[g][k]) < sizes.len(),
        sizes.len() > 0 ==> forall|g: int|
            0 <= g < packed(sizes, max).len() ==> (#[trigger] packed(sizes, max)[g]).len() > 0,
        forall|g: int|
            0 <= g < packed(sizes, max).len() && (#[trigger] packed(sizes, max)[g]).len() > 1
                ==> group_bytes(sizes, packed(sizes, max)[g]) <= max,
    decreases sizes.len(),
{
    let groups = packed(sizes, max);
    if sizes.len() == 0 {
        assert(flattened(groups.drop_last()) =~= Seq::<int>::empty());
        assert(flattened(groups) =~= Seq::new(sizes.len(), |i: int| i));
    } else {
        let front = sizes.drop_last();
        let before = packed(front, max);
        let column = sizes.len() - 1;
        lemma_packed(front, max);
        assert forall|g: int| 0 <= g < before.len() implies group_bytes(front, #[trigger] before[g])
            == group_bytes(sizes, before[g]) by {
            lemma_group_bytes_prefix(sizes, column, before[g]);
            assert(sizes.take(column) =~= front);
        }
        if before.last().len() > 0 && group_bytes(sizes, before.last()) + sizes[column] > max {
            assert(groups.drop_last() =~= before);
            assert(groups.last() =~= seq![column]);
            assert(flattened(groups) == flattened(before) + seq![column]);
            assert(flattened(groups) =~= Seq::new(sizes.len(), |i: int| i));
        } else {
            assert(groups.drop_last() =~= before.drop_last());
            assert(groups.last() == before.last().push(column));
            assert(flattened(before) == flattened(before.drop_last()) + before.last());
            assert(flattened(groups) == flattened(before.drop_last()) + before.last().push(column));
            assert(flattened(groups) =~= flattened(before).push(column));
            assert(flattened(groups) =~= Seq::new(sizes.len(), |i: int| i));
            assert(groups.last().drop_last() =~= before.last());
            if sizes.len() > 1 {
                assert(before.last().len() > 0);
            }
        }
        assert forall|g: int| 0 <= g < groups.len() && (#[trigger] groups[g]).len() > 1
            implies group_bytes(
            sizes,
            groups[g],
        ) <= max by {
            if g < before.len() && groups[g] == before[g] {
                assert(group_bytes(front, before[g]) <= max);
            }
        }
    }
}

/// A byte of a name that is safe in a file name: a lower-case letter, a digit or an underscore.
pub open spec fn safe_byte(byte: u8) -> bool {
    ||| 0x61 <= byte <= 0x7a
    ||| 0x30 <= byte <= 0x39
    ||| byte == 0x5f
}

/// The name is made of 1 to 64 lower-case letters, digits and underscores.
pub open spec fn is_filesystem_safe(name: Seq<char>) -> bool {
    let bytes = encode_utf8(name);
    &&& 1 <= bytes.len() <= 64
    &&& forall|i: int| 0 <= i < bytes.len() ==> safe_byte(#[trigger] bytes[i])
}

/// The SHA-256 digest of `data`, written as lower-case hexadecimal digits.
pub uninterp spec fn sha256_hex(data: Seq<u8>) -> Seq<char>;

/// The file name of a group of several: `x` and the column's name for a
/// single column with a safe name, else the SHA-256 digest of the columns'
/// names written one after the other.
pub open spec fn subpartition_key(names: Seq<Seq<char>>) -> Seq<char> {
    if names.len() == 1 && is_filesystem_safe(names[0]) {
        "x"@ + names[0]
    } else {
        sha256_hex(arena_of(names))
    }
}

/// The SHA-256 digest of `data` as `sha2::Sha256` computes it (`new`,
/// `update`, `finalize`), printed in lower-case hexadecimal.
#[verifier::external_body]
fn sha256_digest(data: &[u8]) -> (hex: String)
    ensures
        hex@ == sha256_hex(data@),
{
    let mut hasher = Sha256::new();
    hasher.update(data);
    format!("{:x}", hasher.finalize())
}

/// Whether a column name is safe in a file name.
pub fn is_column_name_filesystem_safe(name: &str) -> (safe: bool)
    ensures
        safe == is_filesystem_safe(name@),
{
    let bytes = name.as_bytes();
    if bytes.len() < 1 || bytes.len() > 64 {
        return false;
    }
    let mut i: usize = 0;
    while i < bytes.len()
        invariant
            i <= bytes@.len(),
            bytes@ == encode_utf8(name@),
            forall|k: int| 0 <= k < i ==> safe_byte(#[trigger] bytes@[k]),
        decreases bytes@.len() - i,
    {
        let byte = bytes[i];
        let safe = (0x61 <= byte && byte <= 0x7a) || (0x30 <= byte && byte <= 0x39) || byte == 0x5f;
        if !safe {
            return false;
        }
        i += 1;
    }
    true
}

/// The file name of a group of columns of the given names.
pub fn key_of(column_names: &Vec<String>) -> (key: String)
    ensures
        key@ == subpartition_key(column_names@.map_values(|n: String| n@)),
{
    let ghost names = column_names@.map_values(|n: String| n@);
    if column_names.len() == 1 && is_column_name_filesystem_safe(column_names[0].as_str()) {
        let mut key = "x".to_owned();
        key.append(column_names[0].as_str());
        assert(names[0] == column_names@[0]@);
        key
    } else {
        let mut bytes: Vec<u8> = Vec::new();
        let mut i: usize = 0;
        assert(names.take(0) =~= Seq::<Seq<char>>::empty());
        while i < column_names.len()
            invariant
                i <= column_names@.len(),
                names == column_names@.map_values(|n: String| n@),
                bytes@ == arena_of(names.take(i as int)),
            decreases column_names@.len() - i,
        {
            let ghost before = bytes@;
            bytes.extend_from_slice(column_names[i].as_str().as_bytes());
            proof {
                assert(names.take(i + 1).drop_last() =~= names.take(i as int));
                assert(names.take(i + 1).last() == column_names@[i as int]@);
                assert(bytes@ =~= before + encode_utf8(column_names@[i as int]@));
            }
            i += 1;
        }
        assert(names.take(i as int) =~= names);
        proof {
            if column_names@.len() == 1 {
                assert(names[0] == column_names@[0]@);
            }
        }
        sha256_digest(bytes.as_slice())
    }
}

/// The columns stand in the order of their names, compared byte by byte.
pub open spec fn sorted_by_name(columns: Seq<Arc<Column>>) -> bool {
    forall|i: int, j: int|
        0 <= i < j < columns.len() ==> bytes_le(
            encode_utf8((#[trigger] columns[i]).spec_name()),
            encode_utf8((#[trigger] columns[j]).spec_name()),
        )
}

/// How the names of two columns compare, byte by byte.
fn name_order(a: &Arc<Column>, b: &Arc<Column>) -> (order: Ordering)
    ensures
        order == Ordering::Equal <==> a.spec_name() == b.spec_name(),
        order == Ordering::Greater <==> !bytes_le(
            encode_utf8(a.spec_name()),
            encode_utf8(b.spec_name()),
        ),
{
    if same_text(a.name(), b.name()) {
        proof {
            lemma_bytes_le_total(encode_utf8(a.spec_name()), encode_utf8(b.spec_name()));
        }
        Ordering::Equal
    } else if str_le(a.name(), b.name()) {
        Ordering::Less
    } else {
        Ordering::Greater
    }
}

/// `Itertools::sorted_by` with the order of the columns' names: the same
/// columns, sorted by name.
#[verifier::external_body]
fn sort_by_name(columns: Vec<Arc<Column>>) -> (sorted: Vec<Arc<Column>>)
    ensures
        sorted@.to_multiset() == columns@.to_multiset(),
        sorted_by_name(sorted@),
{
    columns.into_iter().sorted_by(|a, b| name_order(a, b)).collect()
}

/// The columns of a partition in the order in which they are grouped: by name.
pub fn in_layout_order(columns: Vec<Arc<Column>>) -> (sorted: Vec<Arc<Column>>)
    ensures
        sorted@.to_multiset() == columns@.to_multiset(),
        sorted@.len() == columns@.len(),
        sorted_by_name(sorted@),
        forall|i: int|
            0 <= i < sorted@.len() ==> columns@.contains(#[trigger] sorted@[i]),
{
    let sorted = sort_by_name(columns);
    proof {
        sorted@.to_multiset_ensures();
        columns@.to_multiset_ensures();
        assert forall|i: int| 0 <= i < sorted@.len() implies columns@.contains(
            #[trigger] sorted@[i],
        ) by {
            assert(sorted@.contains(sorted@[i]));
            assert(sorted@.to_multiset().count(sorted@[i]) > 0);
        }
    }
    sorted
}

/// The size of a column as the grouping counts it.
pub open spec fn column_size(column: Column) -> u64 {
    saturated(column.spec_data().heap_bytes()) as u64
}

/// `groups` are the greedy grouping of `columns` into subpartitions of at
/// most `max` bytes, and `metadata` gives the size and the file name of each
/// group. A partition of a single subpartition names it `all`.
pub open spec fn laid_out(
    max: u64,
    columns: Seq<Arc<Column>>,
    metadata: Seq<SubpartitionMetadata>,
    groups: Seq<Vec<Arc<Column>>>,
) -> bool {
    let sizes = columns.map_values(|c: Arc<Column>| column_size(*c));
    let plan = packed(sizes, max);
    &&& metadata.len() == plan.len()
    &&& groups.len() == plan.len()
    &&& forall|g: int|
        0 <= g < plan.len() ==> (#[trigger] groups[g])@ == plan[g].map_values(|i: int| columns[i])
    &&& forall|g: int|
        0 <= g < plan.len() ==> (#[trigger] metadata[g]).size_bytes == group_bytes(sizes, plan[g])
    &&& forall|g: int|
        0 <= g < plan.len() ==> (#[trigger] metadata[g]).subpartition_key@ == if plan.len() == 1 {
            "all"@
        } else {
            subpartition_key(plan[g].map_values(|i: int| columns[i].spec_name()))
        }
}

/// For every column of every group its name and the position of its group.
pub open spec fn group_index(groups: Seq<Vec<Arc<Column>>>) -> Seq<(Seq<char>, usize)>
    decreases groups.len(),
{
    if groups.len() == 0 {
        Seq::empty()
    } else {
        group_index(groups.drop_last()) + groups.last()@.map_values(
            |c: Arc<Column>| (c.spec_name(), (groups.len() - 1) as usize),
        )
    }
}

/// The names that the index of the first `k` groups lists are the names of
/// the columns at the positions of these groups.
proof fn lemma_group_index_prefix(
    columns: Seq<Arc<Column>>,
    plan: Seq<Seq<int>>,
    groups: Seq<Vec<Arc<Column>>>,
    k: int,
)
    requires
        groups.len() == plan.len(),
        0 <= k <= plan.len(),
        forall|g: int|
            0 <= g < plan.len() ==> (#[trigger] groups[g])@ == plan[g].map_values(
                |i: int| columns[i],
            ),
    ensures
        group_index(groups.take(k)).map_values(|e: (Seq<char>, usize)| e.0) == flattened(
            plan.take(k),
        ).map_values(|i: int| columns[i].spec_name()),
    decreases k,
{
    let names = |e: (Seq<char>, usize)| e.0;
    let named = |i: int| columns[i].spec_name();
    if k == 0 {
        assert(groups.take(0) =~= Seq::<Vec<Arc<Column>>>::empty());
        assert(plan.take(0) =~= Seq::<Seq<int>>::empty());
        assert(group_index(groups.take(k)).map_values(names) =~= flattened(plan.take(k)).map_values(
            named,
        ));
    } else {
        lemma_group_index_prefix(columns, plan, groups, k - 1);
        assert(groups.take(k).drop_last() =~= groups.take(k - 1));
        assert(plan.take(k).drop_last() =~= plan.take(k - 1));
        assert(groups.take(k).last() == groups[k - 1]);
        assert(plan.take(k).last() == plan[k - 1]);
        let here = groups[k - 1]@.map_values(
            |c: Arc<Column>| (c.spec_name(), (groups.take(k).len() - 1) as usize),
        );
        assert(here.map_values(names) =~= plan[k - 1].map_values(named)) by {
            assert(groups[k - 1]@ == plan[k - 1].map_values(|i: int| columns[i]));
        }
        assert(group_index(groups.take(k)).map_values(names) =~= group_index(
            groups.take(k - 1),
        ).map_values(names) + here.map_values(names));
        assert(flattened(plan.take(k)).map_values(named) =~= flattened(
            plan.take(k - 1),
        ).map_values(named) + plan[k - 1].map_values(named));
    }
}

/// The index of a layout lists the columns by name, in their order: what is
/// recorded of a partition names every column of it once.
pub proof fn lemma_index_names(
    max: u64,
    columns: Seq<Arc<Column>>,
    metadata: Seq<SubpartitionMetadata>,
    groups: Seq<Vec<Arc<Column>>>,
)
    requires
        laid_out(max, columns, metadata, groups),
    ensures
        group_index(groups).map_values(|e: (Seq<char>, usize)| e.0) == columns.map_values(
            |c: Arc<Column>| c.spec_name(),
        ),
{
    let sizes = columns.map_values(|c: Arc<Column>| column_size(*c));
    let plan = packed(sizes, max);
    lemma_packed(sizes, max);
    lemma_group_index_prefix(columns, plan, groups, plan.len() as int);
    assert(groups.take(plan.len() as int) =~= groups);
    assert(plan.take(plan.len() as int) =~= plan);
    assert(flattened(plan).map_values(|i: int| columns[i].spec_name()) =~= columns.map_values(
        |c: Arc<Column>| c.spec_name(),
    ));
}

/// Groups the columns of a partition, in the order given, into subpartitions
/// of at most `max_partition_size_bytes`; a column that is larger than that
/// forms a subpartition of its own. Returns the groups and, for each, its
/// file name and size. A partition of a single subpartition names it `all`.
pub fn subpartition(opts: &Options, columns: Vec<Arc<Column>>) -> (parts: (
    Vec<SubpartitionMetadata>,
    Vec<Vec<Arc<Column>>>,
))
    requires
        forall|i: int| 0 <= i < columns@.len() ==> (#[trigger] columns@[i]).spec_data().wf(),
    ensures
        laid_out(opts.max_partition_size_bytes, columns@, parts.0@, parts.1@),
{
    let max = opts.max_partition_size_bytes;
    let ghost sizes = columns@.map_values(|c: Arc<Column>| column_size(*c));
    let mut names: Vec<Vec<String>> = Vec::new();
    let mut bytes: Vec<u64> = Vec::new();
    let mut subpartitions: Vec<Vec<Arc<Column>>> = Vec::new();
    names.push(Vec::new());
    bytes.push(0);
    subpartitions.push(Vec::new());
    let mut k: usize = 0;
    proof {
        assert(sizes.take(0) =~= Seq::<u64>::empty());
        assert(subpartitions@[0]@ =~= packed(sizes.take(0), max)[0].map_values(|i: int| columns@[i]));
        assert(names@[0]@.map_values(|n: String| n@) =~= packed(sizes.take(0), max)[0].map_values(
            |i: int| columns@[i].spec_name(),
        ));
    }
    while k < columns.len()
        invariant
            k <= columns@.len(),
            sizes == columns@.map_values(|c: Arc<Column>| column_size(*c)),
            forall|i: int| 0 <= i < columns@.len() ==> (#[trigger] columns@[i]).spec_data().wf(),
            subpartitions@.len() == packed(sizes.take(k as int), max).len(),
            names@.len() == subpartitions@.len(),
            bytes@.len() == subpartitions@.len(),
            subpartitions@.len() >= 1,
            forall|g: int|
                0 <= g < subpartitions@.len() ==> (#[trigger] subpartitions@[g])@ == packed(
                    sizes.take(k as int),
                    max,
                )[g].map_values(|i: int| columns@[i]),
            forall|g: int|
                0 <= g < subpartitions@.len() ==> (#[trigger] names@[g])@.map_values(
                    |n: String| n@,
                ) == packed(sizes.take(k as int), max)[g].map_values(
                    |i: int| columns@[i].spec_name(),
                ),
            forall|g: int|
                0 <= g < subpartitions@.len() ==> (#[trigger] bytes@[g]) == group_bytes(
                    sizes,
                    packed(sizes.take(k as int), max)[g],
                ),
            forall|g: int, i: int|
                0 <= g < subpartitions@.len() && 0 <= i < packed(sizes.take(k as int), max)[g].len()
                    ==> 0 <= (#[trigger] packed(sizes.take(k as int), max)[g][i]) < k,
        decreases columns@.len() - k,
    {
        let column = columns[k].clone();
        let size_bytes = column.heap_size_of_children() as u64;
        let last = subpartitions.len() - 1;
        let ghost before = packed(sizes.take(k as int), max);
        let ghost after = packed(sizes.take(k + 1), max);
        proof {
            assert(sizes.take(k + 1).drop_last() =~= sizes.take(k as int));
            assert(sizes[k as int] == size_bytes);
            lemma_group_bytes_prefix(sizes, k + 1, before.last());
        }
        let full = subpartitions[last].len() > 0 && (bytes[last] > max || size_bytes > max
            - bytes[last]);
        if full {
            let mut group: Vec<Arc<Column>> = Vec::new();
            let mut group_names: Vec<String> = Vec::new();
            group.push(column);
            group_names.push(columns[k].name().to_owned());
            subpartitions.push(group);
            names.push(group_names);
            bytes.push(size_bytes);
            proof {
                assert(after =~= before.push(seq![k as int]));
                assert(group_bytes(sizes, seq![k as int]) == size_bytes) by {
                    assert(seq![k as int].drop_last() =~= Seq::<int>::empty());
                    assert(group_bytes(sizes, Seq::<int>::empty()) == 0);
                    assert(seq![k as int].last() == k);
                }
                assert(subpartitions@[last + 1]@ =~= after[last + 1].map_values(
                    |i: int| columns@[i],
                ));
                assert(names@[last + 1]@.map_values(|n: String| n@) =~= after[last + 1].map_values(
                    |i: int| columns@[i].spec_name(),
                ));
            }
        } else {
            let ghost group_before = subpartitions@[last as int]@;
            let ghost names_before = names@[last as int]@.map_values(|n: String| n@);
            subpartitions[last].push(column);
            names[last].push(columns[k].name().to_owned());
            let total = bytes[last] + size_bytes;
            bytes.set(last, total);
            proof {
                assert(after =~= before.update(last as int, before.last().push(k as int)));
                assert(after[last as int].drop_last() =~= before.last());
                assert(subpartitions@[last as int]@ =~= after[last as int].map_values(
                    |i: int| columns@[i],
                ));
                assert(names@[last as int]@.map_values(|n: String| n@) =~= names_before.push(
                    columns@[k as int].spec_name(),
                ));
                assert(names@[last as int]@.map_values(|n: String| n@)
                    =~= after[last as int].map_values(
                    |i: int| columns@[i].spec_name(),
                ));
            }
        }
        k += 1;
    }
    assert(sizes.take(k as int) =~= sizes);
    let ghost plan = packed(sizes, max);

    let mut subpartition_metadata: Vec<SubpartitionMetadata> = Vec::with_capacity(
        subpartitions.len(),
    );
    let single = subpartitions.len() == 1;
    let mut g: usize = 0;
    while g < names.len()
        invariant
            g <= names@.len(),
            names@.len() == plan.len(),
            bytes@.len() == plan.len(),
            single == (plan.len() == 1),
            subpartition_metadata@.len() == g,
            forall|g: int|
                0 <= g < plan.len() ==> (#[trigger] names@[g])@.map_values(|n: String| n@)
                    == plan[g].map_values(|i: int| columns@[i].spec_name()),
            forall|g: int|
                0 <= g < plan.len() ==> (#[trigger] bytes@[g]) == group_bytes(sizes, plan[g]),
            forall|h: int|
                0 <= h < g ==> (#[trigger] subpartition_metadata@[h]).size_bytes == group_bytes(
                    sizes,
                    plan[h],
                ) && subpartition_metadata@[h].subpartition_key@ == if plan.len() == 1 {
                    "all"@
                } else {
                    subpartition_key(plan[h].map_values(|i: int| columns@[i].spec_name()))
                },
        decreases names@.len() - g,
    {
        let subpartition_key = if single {
            "all".to_owned()
        } else {
            key_of(&names[g])
        };
        subpartition_metadata.push(SubpartitionMetadata { subpartition_key, size_bytes: bytes[g] });
        g += 1;
    }
    (subpartition_metadata, subpartitions)
}

} // verus!
