//! What the merge primitives guarantee beyond their definitions.

use vstd::prelude::*;

use crate::engine::aggregator::Aggregator;
use crate::engine::batch_merging::{
    aggregated, emitted, lemma_first_take_emits, merge_choices, merged, ops_fit, picked_left,
    picked_right, taken_left, taken_right, MergeOp,
};
use crate::engine::comparator::Comparator;
use crate::engine::operators::merge_deduplicate::consumed;
use crate::engine::vec_data::VecData;

verus! {

/// No rows hold no element.
proof fn lemma_no_rows<T>()
    ensures
        Seq::<T>::empty().to_multiset() == vstd::multiset::Multiset::<T>::empty(),
{
    broadcast use vstd::multiset::group_multiset_axioms;

    let none = Seq::<T>::empty();
    none.to_multiset_ensures();
    assert(none.to_multiset().len() == 0);
    assert(none.to_multiset() =~= vstd::multiset::Multiset::<T>::empty());
}

/// A merge neither loses nor invents rows: the rows that replaying choices
/// builds are, with their numbers, the rows that the choices consume.
pub proof fn lemma_merged_rows<T>(left: Seq<T>, right: Seq<T>, ops: Seq<bool>)
    requires
        picked_left(ops) <= left.len(),
        picked_right(ops) <= right.len(),
    ensures
        merged(left, right, ops).to_multiset() == left.take(
            picked_left(ops) as int,
        ).to_multiset().add(right.take(picked_right(ops) as int).to_multiset()),
    decreases ops.len(),
{
    broadcast use vstd::seq_lib::to_multiset_build;

    if ops.len() == 0 {
        lemma_no_rows::<T>();
        assert(left.take(0) =~= Seq::<T>::empty());
        assert(right.take(0) =~= Seq::<T>::empty());
        assert(merged(left, right, ops) =~= Seq::<T>::empty());
        assert(merged(left, right, ops).to_multiset() =~= left.take(0).to_multiset().add(
            right.take(0).to_multiset(),
        ));
    } else {
        let before = ops.drop_last();
        let i = picked_left(before) as int;
        let j = picked_right(before) as int;
        lemma_merged_rows(left, right, before);
        if ops.last() {
            assert(left.take(i + 1) =~= left.take(i).push(left[i]));
        } else {
            assert(right.take(j + 1) =~= right.take(j).push(right[j]));
        }
        assert(merged(left, right, ops).to_multiset() =~= left.take(
            picked_left(ops) as int,
        ).to_multiset().add(right.take(picked_right(ops) as int).to_multiset()));
    }
}

/// A deduplicating merge consumes every row once: the rows in the order in
/// which the ops consume them are, with their numbers, the rows of the two
/// inputs that the ops reach.
pub proof fn lemma_consumed_rows<T>(left: Seq<T>, right: Seq<T>, ops: Seq<MergeOp>)
    requires
        taken_left(ops) <= left.len(),
        taken_right(ops) <= right.len(),
    ensures
        consumed(left, right, ops).to_multiset() == left.take(
            taken_left(ops) as int,
        ).to_multiset().add(right.take(taken_right(ops) as int).to_multiset()),
        taken_left(ops) == left.len() && taken_right(ops) == right.len() ==> consumed(
            left,
            right,
            ops,
        ).to_multiset() == left.to_multiset().add(right.to_multiset()),
    decreases ops.len(),
{
    broadcast use vstd::seq_lib::to_multiset_build;

    if ops.len() == 0 {
        lemma_no_rows::<T>();
        assert(left.take(0) =~= Seq::<T>::empty());
        assert(right.take(0) =~= Seq::<T>::empty());
        assert(consumed(left, right, ops) =~= Seq::<T>::empty());
        assert(consumed(left, right, ops).to_multiset() =~= left.take(0).to_multiset().add(
            right.take(0).to_multiset(),
        ));
    } else {
        let before = ops.drop_last();
        let i = taken_left(before) as int;
        let j = taken_right(before) as int;
        lemma_consumed_rows(left, right, before);
        if ops.last() == MergeOp::TakeLeft {
            assert(left.take(i + 1) =~= left.take(i).push(left[i]));
        } else {
            assert(right.take(j + 1) =~= right.take(j).push(right[j]));
        }
        assert(consumed(left, right, ops).to_multiset() =~= left.take(
            taken_left(ops) as int,
        ).to_multiset().add(right.take(taken_right(ops) as int).to_multiset()));
    }
    if taken_left(ops) == left.len() && taken_right(ops) == right.len() {
        assert(left.take(left.len() as int) =~= left);
        assert(right.take(right.len() as int) =~= right);
    }
}

/// A merge that stops after `limit` rows makes the first `limit` choices of
/// the merge that is not limited.
pub proof fn lemma_limit_truncates<T: VecData, C: Comparator<T>>(
    left: Seq<T>,
    right: Seq<T>,
    limit: nat,
)
    ensures
        merge_choices::<T, C>(left, right, left.len() + right.len()).len() == left.len()
            + right.len(),
        merge_choices::<T, C>(left, right, limit) == if limit <= left.len() + right.len() {
            merge_choices::<T, C>(left, right, left.len() + right.len()).take(limit as int)
        } else {
            merge_choices::<T, C>(left, right, left.len() + right.len())
        },
    decreases left.len() + right.len(),
{
    let total = left.len() + right.len();
    let full = merge_choices::<T, C>(left, right, total);
    let cut = merge_choices::<T, C>(left, right, limit);
    if total > 0 {
        if left.len() > 0 && (right.len() == 0 || C::before_or_equal(left[0], right[0])) {
            lemma_limit_truncates::<T, C>(left.drop_first(), right, (limit - 1) as nat);
            lemma_limit_truncates::<T, C>(left.drop_first(), right, (total - 1) as nat);
        } else {
            lemma_limit_truncates::<T, C>(left, right.drop_first(), (limit - 1) as nat);
            lemma_limit_truncates::<T, C>(left, right.drop_first(), (total - 1) as nat);
        }
        if limit == 0 {
            assert(cut =~= full.take(0));
        } else if limit <= total {
            assert(cut =~= full.take(limit as int));
        } else {
            assert(cut =~= full);
        }
    } else {
        assert(cut =~= full);
        if limit == 0 {
            assert(full.take(0) =~= full);
        }
    }
}

/// The sum of `values`.
pub open spec fn total(values: Seq<i64>) -> int
    decreases values.len(),
{
    if values.len() == 0 {
        0
    } else {
        total(values.drop_last()) + values.last()
    }
}

/// The row that the op at position `k` takes from its input.
pub open spec fn value_at(left: Seq<i64>, right: Seq<i64>, ops: Seq<MergeOp>, k: int) -> i64 {
    if ops[k] == MergeOp::TakeLeft {
        left[taken_left(ops.take(k)) as int]
    } else {
        right[taken_right(ops.take(k)) as int]
    }
}

/// The output row that the op at position `k` contributes to.
pub open spec fn group_at(ops: Seq<MergeOp>, k: int) -> int {
    emitted(ops.take(k + 1)) - 1
}

/// No fold of a sum or a count leaves the range of `i64`.
pub open spec fn sums_fit(
    left: Seq<i64>,
    right: Seq<i64>,
    ops: Seq<MergeOp>,
    aggregator: Aggregator,
) -> bool {
    forall|k: int|
        0 <= k < ops.len() && #[trigger] ops[k] == MergeOp::MergeRight ==> i64::MIN <= aggregated(
            left,
            right,
            ops.take(k),
            aggregator,
        ).last() + value_at(left, right, ops, k) <= i64::MAX
}

/// The state of the output row `g` is one of the rows that went into it.
pub open spec fn attained(
    left: Seq<i64>,
    right: Seq<i64>,
    ops: Seq<MergeOp>,
    aggregator: Aggregator,
    g: int,
) -> bool {
    exists|k: int|
        0 <= k < ops.len() && #[trigger] group_at(ops, k) == g && aggregated(
            left,
            right,
            ops,
            aggregator,
        )[g] == value_at(left, right, ops, k)
}

/// The states have one row per output row.
pub proof fn lemma_aggregated_len(
    left: Seq<i64>,
    right: Seq<i64>,
    ops: Seq<MergeOp>,
    aggregator: Aggregator,
)
    requires
        ops.len() > 0 ==> ops[0] != MergeOp::MergeRight,
    ensures
        aggregated(left, right, ops, aggregator).len() == emitted(ops),
        ops.len() > 0 ==> emitted(ops) > 0,
    decreases ops.len(),
{
    if ops.len() > 0 {
        lemma_first_take_emits(ops);
        let before = ops.drop_last();
        if before.len() > 0 {
            assert(before[0] == ops[0]);
        }
        lemma_aggregated_len(left, right, before, aggregator);
    }
}

/// Replacing the last of several values changes their sum by the difference.
pub proof fn lemma_total_update_last(values: Seq<i64>, value: i64)
    requires
        values.len() > 0,
    ensures
        total(values.update(values.len() - 1, value)) == total(values) - values.last() + value,
{
    assert(values.update(values.len() - 1, value).drop_last() =~= values.drop_last());
}

/// Sums and counts are kept: where no fold overflows, the states that a
/// merge produces add up to what the rows that it consumed add up to.
pub proof fn lemma_aggregate_keeps_sum(
    left: Seq<i64>,
    right: Seq<i64>,
    ops: Seq<MergeOp>,
    aggregator: Aggregator,
)
    requires
        aggregator == Aggregator::Sum || aggregator == Aggregator::Count,
        ops_fit(ops, left.len(), right.len()),
        sums_fit(left, right, ops, aggregator),
    ensures
        total(aggregated(left, right, ops, aggregator)) == total(
            left.take(taken_left(ops) as int),
        ) + total(right.take(taken_right(ops) as int)),
        taken_left(ops) == left.len() && taken_right(ops) == right.len() ==> total(
            aggregated(left, right, ops, aggregator),
        ) == total(left) + total(right),
    decreases ops.len(),
{
    if ops.len() == 0 {
        assert(left.take(0) =~= Seq::<i64>::empty());
        assert(right.take(0) =~= Seq::<i64>::empty());
    } else {
        let before = ops.drop_last();
        let k = ops.len() - 1;
        assert(ops.take(k) =~= before);
        assert forall|j: int|
            0 <= j < before.len() && #[trigger] before[j] == MergeOp::MergeRight implies i64::MIN
            <= aggregated(left, right, before.take(j), aggregator).last() + value_at(
            left,
            right,
            before,
            j,
        ) <= i64::MAX by {
            assert(ops[j] == MergeOp::MergeRight);
            assert(ops.take(j) =~= before.take(j));
        }
        lemma_aggregate_keeps_sum(left, right, before, aggregator);
        let tl = taken_left(before) as int;
        let tr = taken_right(before) as int;
        let states = aggregated(left, right, before, aggregator);
        match ops.last() {
            MergeOp::TakeLeft => {
                assert(left.take(tl + 1).drop_last() =~= left.take(tl));
                assert(states.push(left[tl]).drop_last() =~= states);
            },
            MergeOp::TakeRight => {
                assert(right.take(tr + 1).drop_last() =~= right.take(tr));
                assert(states.push(right[tr]).drop_last() =~= states);
            },
            MergeOp::MergeRight => {
                assert(right.take(tr + 1).drop_last() =~= right.take(tr));
                assert(before.len() > 0);
                assert(before[0] == ops[0]);
                lemma_aggregated_len(left, right, before, aggregator);
                assert(ops[k] == MergeOp::MergeRight);
                assert(value_at(left, right, ops, k) == right[tr]);
                lemma_total_update_last(states, aggregator.combined(states.last(), right[tr]));
            },
        }
    }
    if taken_left(ops) == left.len() && taken_right(ops) == right.len() {
        assert(left.take(left.len() as int) =~= left);
        assert(right.take(right.len() as int) =~= right);
    }
}

/// Sums and counts are kept in two's complement, on every input: the states
/// that a merge produces add up to what the rows that it consumed add up to,
/// but for a multiple of 2^64, which the result names.
pub proof fn lemma_aggregate_sum_wraps(
    left: Seq<i64>,
    right: Seq<i64>,
    ops: Seq<MergeOp>,
    aggregator: Aggregator,
) -> (wraps: int)
    requires
        aggregator == Aggregator::Sum || aggregator == Aggregator::Count,
        ops_fit(ops, left.len(), right.len()),
    ensures
        total(aggregated(left, right, ops, aggregator)) == total(
            left.take(taken_left(ops) as int),
        ) + total(right.take(taken_right(ops) as int)) + wraps * 0x1_0000_0000_0000_0000,
    decreases ops.len(),
{
    if ops.len() == 0 {
        assert(left.take(0) =~= Seq::<i64>::empty());
        assert(right.take(0) =~= Seq::<i64>::empty());
        0
    } else {
        let before = ops.drop_last();
        let k = ops.len() - 1;
        assert(ops.take(k) =~= before);
        assert(before.len() > 0 ==> before[0] == ops[0]);
        let earlier = lemma_aggregate_sum_wraps(left, right, before, aggregator);
        let tl = taken_left(before) as int;
        let tr = taken_right(before) as int;
        let states = aggregated(left, right, before, aggregator);
        match ops.last() {
            MergeOp::TakeLeft => {
                assert(left.take(tl + 1).drop_last() =~= left.take(tl));
                assert(states.push(left[tl]).drop_last() =~= states);
                earlier
            },
            MergeOp::TakeRight => {
                assert(right.take(tr + 1).drop_last() =~= right.take(tr));
                assert(states.push(right[tr]).drop_last() =~= states);
                earlier
            },
            MergeOp::MergeRight => {
                assert(right.take(tr + 1).drop_last() =~= right.take(tr));
                assert(before.len() > 0);
                lemma_aggregated_len(left, right, before, aggregator);
                let folded = aggregator.combined(states.last(), right[tr]);
                lemma_total_update_last(states, folded);
                if states.last() + right[tr] > i64::MAX {
                    earlier - 1
                } else if states.last() + right[tr] < i64::MIN {
                    earlier + 1
                } else {
                    earlier
                }
            },
        }
    }
}

/// Every state of a minimum is the least of the rows that went into its
/// output row, and every state of a maximum the greatest.
pub proof fn lemma_aggregate_extremes(
    left: Seq<i64>,
    right: Seq<i64>,
    ops: Seq<MergeOp>,
    aggregator: Aggregator,
)
    requires
        aggregator == Aggregator::Min || aggregator == Aggregator::Max,
        ops_fit(ops, left.len(), right.len()),
    ensures
        aggregated(left, right, ops, aggregator).len() == emitted(ops),
        forall|k: int|
            0 <= k < ops.len() ==> 0 <= #[trigger] group_at(ops, k) < emitted(ops) && if aggregator
                == Aggregator::Min {
                aggregated(left, right, ops, aggregator)[group_at(ops, k)] <= value_at(
                    left,
                    right,
                    ops,
                    k,
                )
            } else {
                aggregated(left, right, ops, aggregator)[group_at(ops, k)] >= value_at(
                    left,
                    right,
                    ops,
                    k,
                )
            },
        forall|g: int|
            0 <= g < emitted(ops) ==> #[trigger] attained(left, right, ops, aggregator, g),
    decreases ops.len(),
{
    lemma_aggregated_len(left, right, ops, aggregator);
    if ops.len() > 0 {
        let before = ops.drop_last();
        let n = ops.len() - 1;
        assert(ops.take(n) =~= before);
        assert(ops.take(n + 1) =~= ops);
        if before.len() > 0 {
            assert(before[0] == ops[0]);
        }
        lemma_aggregate_extremes(left, right, before, aggregator);
        let states = aggregated(left, right, before, aggregator);
        let out = aggregated(left, right, ops, aggregator);
        assert forall|k: int| 0 <= k < n implies group_at(ops, k) == group_at(before, k) && value_at(
            left,
            right,
            ops,
            k,
        ) == value_at(left, right, before, k) by {
            assert(ops.take(k + 1) =~= before.take(k + 1));
            assert(ops.take(k) =~= before.take(k));
        }
        assert forall|k: int| 0 <= k < ops.len() implies 0 <= #[trigger] group_at(ops, k) < emitted(
            ops,
        ) && if aggregator == Aggregator::Min {
            out[group_at(ops, k)] <= value_at(left, right, ops, k)
        } else {
            out[group_at(ops, k)] >= value_at(left, right, ops, k)
        } by {
            if k < n {
                assert(0 <= group_at(before, k) < emitted(before));
            }
        }
        assert forall|g: int| 0 <= g < emitted(ops) implies #[trigger] attained(
            left,
            right,
            ops,
            aggregator,
            g,
        ) by {
            if g < emitted(before) && out[g] == states[g] {
                assert(attained(left, right, before, aggregator, g));
                let k = choose|k: int|
                    0 <= k < before.len() && #[trigger] group_at(before, k) == g && states[g]
                        == value_at(left, right, before, k);
                assert(group_at(ops, k) == g && out[g] == value_at(left, right, ops, k));
            } else {
                assert(group_at(ops, n) == g && out[g] == value_at(left, right, ops, n));
            }
        }
    }
}

} // verus!
