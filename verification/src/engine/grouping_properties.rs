//! Merging by several key columns amounts to merging by one compound key.

use vstd::prelude::*;

use crate::engine::batch_merging::{
    group_dedup_ops, least_head, partitioned, partitioned_dedup_ops, run_len, subpartitioned,
    MergeOp, Premerge,
};
use crate::engine::comparator::CmpLessThan;
use crate::engine::operators::merge_deduplicate::{
    dedup_ops, repeated, sorted_by, strictly_sorted_by,
};
use crate::engine::vec_data::{equiv, lt, Compound, VecData};

verus! {

/// The rows of two key columns as compound keys.
pub open spec fn zip<A, B>(first: Seq<A>, second: Seq<B>) -> Seq<Compound<A, B>> {
    Seq::new(first.len(), |i: int| Compound(first[i], second[i]))
}

/// How compound keys compare, by what their parts do.
pub proof fn lemma_pair_order<A: VecData, B: VecData>(x: Compound<A, B>, y: Compound<A, B>)
    ensures
        equiv(x, y) <==> equiv(x.0, y.0) && equiv(x.1, y.1),
        equiv(x.0, y.0) ==> (x.le(y) <==> x.1.le(y.1)),
        lt(x.0, y.0) ==> x.le(y) && !y.le(x),
{
    A::le_total(x.0, y.0);
    B::le_total(x.1, y.1);
}

/// The order of `T` is total and transitive.
pub proof fn lemma_chain<T: VecData>(a: T, b: T, c: T)
    ensures
        a.le(b) || b.le(a),
        a.le(b) && b.le(c) ==> a.le(c),
{
    T::le_total(a, b);
    if a.le(b) && b.le(c) {
        T::le_transitive(a, b, c);
    }
}

/// Within a group with no right rows, every left row is taken.
pub proof fn lemma_group_left_only<B: VecData>(left: Seq<B>, last: Option<B>)
    ensures
        group_dedup_ops(left, Seq::<B>::empty(), last) == repeated(MergeOp::TakeLeft, left.len()),
    decreases left.len(),
{
    if left.len() > 0 {
        lemma_group_left_only(left.drop_first(), Some(left[0]));
    }
    assert(group_dedup_ops(left, Seq::<B>::empty(), last) =~= repeated(
        MergeOp::TakeLeft,
        left.len(),
    ));
}

/// Within a group with no left rows and strictly ascending right rows, only
/// the first right row can be folded.
pub proof fn lemma_group_right_only<B: VecData>(right: Seq<B>, last: Option<B>)
    requires
        right.len() > 0,
        strictly_sorted_by::<B, CmpLessThan>(right),
        last is Some ==> last->0.le(right[0]),
    ensures
        group_dedup_ops(Seq::<B>::empty(), right, last) == seq![
            if last is Some && equiv(last->0, right[0]) {
                MergeOp::MergeRight
            } else {
                MergeOp::TakeRight
            },
        ] + repeated(MergeOp::TakeRight, (right.len() - 1) as nat),
    decreases right.len(),
{
    let rest = right.drop_first();
    let fold = last is Some && equiv(last->0, right[0]);
    let next = if fold {
        last
    } else {
        Some(right[0])
    };
    if rest.len() > 0 {
        assert(rest[0] == right[1]);
        assert(lt(right[0], right[1]));
        assert forall|a: int, b: int| 0 <= a < b < rest.len() implies lt(
            #[trigger] rest[a],
            #[trigger] rest[b],
        ) by {
            assert(lt(right[a + 1], right[b + 1]));
        }
        B::le_total(right[0], right[1]);
        if fold {
            lemma_chain::<B>(last->0, right[0], right[1]);
            if right[1].le(last->0) {
                lemma_chain::<B>(right[1], last->0, right[0]);
            }
        }
        lemma_group_right_only(rest, next);
    }
    assert(group_dedup_ops(Seq::<B>::empty(), rest, next) =~= repeated(
        MergeOp::TakeRight,
        rest.len(),
    ));
    assert(group_dedup_ops(Seq::<B>::empty(), right, last) =~= seq![
        if fold {
            MergeOp::MergeRight
        } else {
            MergeOp::TakeRight
        },
    ] + repeated(MergeOp::TakeRight, (right.len() - 1) as nat));
}

/// A merge does not depend on the key emitted last where that key differs
/// from the first right row.
pub proof fn lemma_last_is_past<T: VecData>(left: Seq<T>, right: Seq<T>, last: Option<T>)
    requires
        right.len() > 0 && last is Some ==> !equiv(last->0, right[0]),
    ensures
        dedup_ops::<T, CmpLessThan>(left, right, last) == dedup_ops::<T, CmpLessThan>(
            left,
            right,
            None,
        ),
{
}

/// The rows of a run of equal keys are equal to the key, and the row behind
/// the run is not.
pub proof fn lemma_run<T: VecData>(column: Seq<T>, elem: T)
    ensures
        run_len(column, elem) <= column.len(),
        forall|i: int| 0 <= i < run_len(column, elem) ==> equiv(elem, #[trigger] column[i]),
        run_len(column, elem) < column.len() ==> !equiv(
            elem,
            column[run_len(column, elem) as int],
        ),
    decreases column.len(),
{
    if column.len() > 0 && equiv(elem, column[0]) {
        let rest = column.drop_first();
        lemma_run(rest, elem);
        assert forall|i: int| 0 <= i < run_len(column, elem) implies equiv(
            elem,
            #[trigger] column[i],
        ) by {
            if i > 0 {
                assert(equiv(elem, rest[i - 1]));
            }
        }
        if run_len(column, elem) < column.len() {
            assert(rest[run_len(rest, elem) as int] == column[run_len(column, elem) as int]);
        }
    }
}

/// The rows of one group reach the output as the merge of the group does.
///
/// The first `l` left rows and the first `r` right rows have the leading key
/// `v`, all other rows a greater one. Then the merge of the rows by their
/// compound keys starts with the ops that the merge of the second keys within
/// the group gives, and goes on as the merge of the other rows does.
pub proof fn lemma_group_merge<A: VecData, B: VecData>(
    a_l: Seq<A>,
    b_l: Seq<B>,
    a_r: Seq<A>,
    b_r: Seq<B>,
    l: int,
    r: int,
    v: A,
    last: Option<Compound<A, B>>,
    group_last: Option<B>,
)
    requires
        a_l.len() == b_l.len(),
        a_r.len() == b_r.len(),
        0 <= l <= a_l.len(),
        0 <= r <= a_r.len(),
        strictly_sorted_by::<Compound<A, B>, CmpLessThan>(zip(a_l, b_l)),
        strictly_sorted_by::<Compound<A, B>, CmpLessThan>(zip(a_r, b_r)),
        forall|i: int| 0 <= i < l ==> equiv(v, #[trigger] a_l[i]),
        forall|i: int| 0 <= i < r ==> equiv(v, #[trigger] a_r[i]),
        forall|i: int| l <= i < a_l.len() ==> lt(v, #[trigger] a_l[i]),
        forall|i: int| r <= i < a_r.len() ==> lt(v, #[trigger] a_r[i]),
        match group_last {
            None => last is None || lt((last->0).0, v),
            Some(x) => last is Some && (last->0).1 == x && equiv((last->0).0, v) && (r > 0 ==> x.le(
                b_r[0],
            )),
        },
    ensures
        dedup_ops::<Compound<A, B>, CmpLessThan>(zip(a_l, b_l), zip(a_r, b_r), last)
            == group_dedup_ops(
            b_l.take(l),
            b_r.take(r),
            group_last,
        ) + dedup_ops::<Compound<A, B>, CmpLessThan>(
            zip(a_l.skip(l), b_l.skip(l)),
            zip(a_r.skip(r), b_r.skip(r)),
            None,
        ),
    decreases l + r,
{
    let left = zip(a_l, b_l);
    let right = zip(a_r, b_r);
    let all = dedup_ops::<Compound<A, B>, CmpLessThan>(left, right, last);
    let in_group = group_dedup_ops(b_l.take(l), b_r.take(r), group_last);
    let later = dedup_ops::<Compound<A, B>, CmpLessThan>(
        zip(a_l.skip(l), b_l.skip(l)),
        zip(a_r.skip(r), b_r.skip(r)),
        None,
    );
    if left.len() > 0 {
        assert(left[0] == Compound(a_l[0], b_l[0]));
    }
    if right.len() > 0 {
        assert(right[0] == Compound(a_r[0], b_r[0]));
    }
    if l == 0 && r == 0 {
        assert(a_l.skip(0) =~= a_l && b_l.skip(0) =~= b_l);
        assert(a_r.skip(0) =~= a_r && b_r.skip(0) =~= b_r);
        if right.len() > 0 && last is Some {
            lemma_pair_order(last->0, right[0]);
            A::le_total(v, a_r[0]);
            lemma_chain::<A>((last->0).0, v, v);
            lemma_chain::<A>(a_r[0], (last->0).0, v);
        }
        lemma_last_is_past(left, right, last);
        assert(in_group =~= Seq::<MergeOp>::empty());
        assert(all =~= in_group + later);
    } else if right.len() == 0 {
        lemma_group_left_only(b_l.take(l), group_last);
        assert(b_r.take(r) =~= Seq::<B>::empty());
        assert(zip(a_r.skip(r), b_r.skip(r)) =~= Seq::<Compound<A, B>>::empty());
        assert(zip(a_l.skip(l), b_l.skip(l)).len() == a_l.len() - l);
        assert(all =~= in_group + later);
    } else if left.len() == 0 {
        assert(r > 0);
        assert(b_l.take(l) =~= Seq::<B>::empty());
        assert(zip(a_l.skip(l), b_l.skip(l)) =~= Seq::<Compound<A, B>>::empty());
        let group_right = b_r.take(r);
        assert(group_right[0] == b_r[0]);
        assert forall|a: int, b: int| 0 <= a < b < group_right.len() implies lt(
            #[trigger] group_right[a],
            #[trigger] group_right[b],
        ) by {
            assert(lt(right[a], right[b]));
            lemma_pair_order(right[a], right[b]);
            lemma_pair_order(right[b], right[a]);
            lemma_chain::<A>(a_r[a], v, a_r[b]);
            lemma_chain::<A>(a_r[b], v, a_r[a]);
        }
        lemma_group_right_only(group_right, group_last);
        if last is Some {
            lemma_pair_order(last->0, right[0]);
            A::le_total(v, a_r[0]);
            lemma_chain::<A>(a_r[0], v, (last->0).0);
            lemma_chain::<A>((last->0).0, v, a_r[0]);
            if group_last is None && equiv((last->0).0, a_r[0]) {
                lemma_chain::<A>(v, a_r[0], (last->0).0);
            }
        }
        let rest_later = zip(a_r.skip(r), b_r.skip(r));
        assert(rest_later.len() == a_r.len() - r);
        assert(later =~= repeated(MergeOp::TakeRight, rest_later.len()));
        assert(all =~= in_group + later);
    } else {
        let fold = last is Some && equiv(last->0, right[0]);
        A::le_total(v, a_r[0]);
        A::le_total(v, a_l[0]);
        if last is Some {
            lemma_pair_order(last->0, right[0]);
            lemma_chain::<A>(a_r[0], v, (last->0).0);
            lemma_chain::<A>((last->0).0, v, a_r[0]);
            if equiv((last->0).0, a_r[0]) && (r == 0 || group_last is None) {
                lemma_chain::<A>(v, a_r[0], (last->0).0);
                lemma_chain::<A>(a_r[0], (last->0).0, v);
            }
        }
        lemma_pair_order(left[0], right[0]);
        lemma_pair_order(right[0], left[0]);
        if l > 0 && r > 0 {
            lemma_chain::<A>(a_l[0], v, a_r[0]);
            lemma_chain::<A>(a_r[0], v, a_l[0]);
        }
        if l > 0 && r == 0 {
            lemma_chain::<A>(a_l[0], v, a_r[0]);
            if a_r[0].le(a_l[0]) {
                lemma_chain::<A>(a_r[0], a_l[0], v);
            }
        }
        if l == 0 && r > 0 {
            lemma_chain::<A>(a_r[0], v, a_l[0]);
            if a_l[0].le(a_r[0]) {
                lemma_chain::<A>(a_l[0], a_r[0], v);
            }
        }
        let take_left = !fold && left[0].le(right[0]);
        if r > 0 {
            assert(b_r.take(r)[0] == b_r[0]);
            assert(b_r.take(r).drop_first() =~= b_r.drop_first().take(r - 1));
        }
        if l > 0 {
            assert(b_l.take(l)[0] == b_l[0]);
            assert(b_l.take(l).drop_first() =~= b_l.drop_first().take(l - 1));
        }
        if fold || !take_left {
            assert(r > 0);
            let next = if fold {
                last
            } else {
                Some(right[0])
            };
            let group_next = if fold {
                group_last
            } else {
                Some(b_r[0])
            };
            let a_rest = a_r.drop_first();
            let b_rest = b_r.drop_first();
            assert(zip(a_rest, b_rest) =~= right.drop_first());
            assert forall|a: int, b: int| 0 <= a < b < right.drop_first().len() implies lt(
                #[trigger] right.drop_first()[a],
                #[trigger] right.drop_first()[b],
            ) by {
                assert(lt(right[a + 1], right[b + 1]));
            }
            assert forall|i: int| 0 <= i < r - 1 implies equiv(v, #[trigger] a_rest[i]) by {
                assert(equiv(v, a_r[i + 1]));
            }
            assert forall|i: int| r - 1 <= i < a_rest.len() implies lt(v, #[trigger] a_rest[i]) by {
                assert(lt(v, a_r[i + 1]));
            }
            if r > 1 {
                assert(lt(right[0], right[1]));
                lemma_pair_order(right[0], right[1]);
                lemma_pair_order(right[1], right[0]);
                lemma_chain::<A>(a_r[0], v, a_r[1]);
                lemma_chain::<A>(a_r[1], v, a_r[0]);
                B::le_total(b_r[0], b_r[1]);
                assert(b_rest[0] == b_r[1]);
                if fold {
                    lemma_chain::<B>(group_last->0, b_r[0], b_r[1]);
                }
            }
            lemma_group_merge(a_l, b_l, a_rest, b_rest, l, r - 1, v, next, group_next);
            assert(a_rest.skip(r - 1) =~= a_r.skip(r));
            assert(b_rest.skip(r - 1) =~= b_r.skip(r));
            assert(all =~= in_group + later);
        } else {
            assert(l > 0);
            let a_rest = a_l.drop_first();
            let b_rest = b_l.drop_first();
            assert(zip(a_rest, b_rest) =~= left.drop_first());
            assert forall|a: int, b: int| 0 <= a < b < left.drop_first().len() implies lt(
                #[trigger] left.drop_first()[a],
                #[trigger] left.drop_first()[b],
            ) by {
                assert(lt(left[a + 1], left[b + 1]));
            }
            assert forall|i: int| 0 <= i < l - 1 implies equiv(v, #[trigger] a_rest[i]) by {
                assert(equiv(v, a_l[i + 1]));
            }
            assert forall|i: int| l - 1 <= i < a_rest.len() implies lt(v, #[trigger] a_rest[i]) by {
                assert(lt(v, a_l[i + 1]));
            }
            lemma_group_merge(
                a_rest,
                b_rest,
                a_r,
                b_r,
                l - 1,
                r,
                v,
                Some(left[0]),
                Some(b_l[0]),
            );
            assert(a_rest.skip(l - 1) =~= a_l.skip(l));
            assert(b_rest.skip(l - 1) =~= b_l.skip(l));
            assert(all =~= in_group + later);
        }
    }
}

/// The first group of two sorted key columns: the rows of the group equal
/// the least key, all other rows are greater.
pub proof fn lemma_first_group<A: VecData>(a_l: Seq<A>, a_r: Seq<A>)
    requires
        a_l.len() + a_r.len() > 0,
        sorted_by::<A, CmpLessThan>(a_l),
        sorted_by::<A, CmpLessThan>(a_r),
    ensures
        ({
            let v = least_head(a_l, a_r);
            let l = run_len(a_l, v) as int;
            let r = run_len(a_r, v) as int;
            &&& 0 <= l <= a_l.len()
            &&& 0 <= r <= a_r.len()
            &&& l + r > 0
            &&& forall|i: int| 0 <= i < l ==> equiv(v, #[trigger] a_l[i])
            &&& forall|i: int| 0 <= i < r ==> equiv(v, #[trigger] a_r[i])
            &&& forall|i: int| l <= i < a_l.len() ==> lt(v, #[trigger] a_l[i])
            &&& forall|i: int| r <= i < a_r.len() ==> lt(v, #[trigger] a_r[i])
        }),
{
    let v = least_head(a_l, a_r);
    let l = run_len(a_l, v) as int;
    let r = run_len(a_r, v) as int;
    lemma_run(a_l, v);
    lemma_run(a_r, v);
    lemma_chain::<A>(v, v, v);
    if a_l.len() > 0 && a_r.len() > 0 {
        lemma_chain::<A>(a_l[0], a_r[0], a_r[0]);
    }
    assert forall|i: int| l <= i < a_l.len() implies lt(v, #[trigger] a_l[i]) by {
        lemma_chain::<A>(v, a_l[0], a_l[l]);
        lemma_chain::<A>(a_l[l], a_l[i], v);
        if l > 0 {
            assert(a_l[0].le(a_l[l]));
        }
        if i > l {
            assert(a_l[l].le(a_l[i]));
        }
    }
    assert forall|i: int| r <= i < a_r.len() implies lt(v, #[trigger] a_r[i]) by {
        lemma_chain::<A>(v, a_r[0], a_r[r]);
        lemma_chain::<A>(a_r[r], a_r[i], v);
        if r > 0 {
            assert(a_r[0].le(a_r[r]));
        }
        if i > r {
            assert(a_r[r].le(a_r[i]));
        }
    }
}

/// Rows that are sorted by their compound keys are sorted by their first keys.
pub proof fn lemma_first_keys_sorted<A: VecData, B: VecData>(a: Seq<A>, b: Seq<B>)
    requires
        a.len() == b.len(),
        sorted_by::<Compound<A, B>, CmpLessThan>(zip(a, b)),
    ensures
        sorted_by::<A, CmpLessThan>(a),
{
    assert forall|i: int, j: int| 0 <= i < j < a.len() implies (#[trigger] a[i]).le(
        #[trigger] a[j],
    ) by {
        assert(zip(a, b)[i].le(zip(a, b)[j]));
    }
}

/// Rows that are strictly sorted are sorted.
pub proof fn lemma_strictly_sorted<T: VecData>(rows: Seq<T>)
    requires
        strictly_sorted_by::<T, CmpLessThan>(rows),
    ensures
        sorted_by::<T, CmpLessThan>(rows),
{
    assert forall|i: int, j: int| 0 <= i < j < rows.len() implies (#[trigger] rows[i]).le(
        #[trigger] rows[j],
    ) by {
        assert(lt(rows[i], rows[j]));
        T::le_total(rows[i], rows[j]);
    }
}

/// The last key column: the merge of the last keys within the runs of equal
/// leading keys is the deduplicating merge of the rows by their compound
/// keys. The leading key `A` may itself be the compound key of several
/// columns, so this holds for any number of key columns.
pub proof fn lemma_two_keys<A: VecData, B: VecData>(
    a_l: Seq<A>,
    b_l: Seq<B>,
    a_r: Seq<A>,
    b_r: Seq<B>,
    room: int,
)
    requires
        a_l.len() == b_l.len(),
        a_r.len() == b_r.len(),
        a_l.len() <= u32::MAX,
        a_r.len() <= u32::MAX,
        room >= a_l.len() + a_r.len(),
        strictly_sorted_by::<Compound<A, B>, CmpLessThan>(zip(a_l, b_l)),
        strictly_sorted_by::<Compound<A, B>, CmpLessThan>(zip(a_r, b_r)),
    ensures
        partitioned_dedup_ops(partitioned(a_l, a_r, room), b_l, b_r) == dedup_ops::<
            Compound<A, B>,
            CmpLessThan,
        >(zip(a_l, b_l), zip(a_r, b_r), None),
    decreases a_l.len() + a_r.len(),
{
    let groups = partitioned(a_l, a_r, room);
    if a_l.len() + a_r.len() > 0 {
        lemma_strictly_sorted(zip(a_l, b_l));
        lemma_strictly_sorted(zip(a_r, b_r));
        lemma_first_keys_sorted(a_l, b_l);
        lemma_first_keys_sorted(a_r, b_r);
        lemma_first_group(a_l, a_r);
        let v = least_head(a_l, a_r);
        let l = run_len(a_l, v) as int;
        let r = run_len(a_r, v) as int;
        let rest = partitioned(a_l.skip(l), a_r.skip(r), room - l - r);
        assert(groups.drop_first() =~= rest);
        assert(groups[0] == Premerge { left: l as u32, right: r as u32 });
        assert(zip(a_l.skip(l), b_l.skip(l)) =~= zip(a_l, b_l).skip(l));
        assert(zip(a_r.skip(r), b_r.skip(r)) =~= zip(a_r, b_r).skip(r));
        lemma_two_keys(a_l.skip(l), b_l.skip(l), a_r.skip(r), b_r.skip(r), room - l - r);
        lemma_group_merge(a_l, b_l, a_r, b_r, l, r, v, None, None);
    } else {
        assert(zip(a_l, b_l) =~= Seq::<Compound<A, B>>::empty());
        assert(zip(a_r, b_r) =~= Seq::<Compound<A, B>>::empty());
    }
}

/// Within a group the run of a compound key is the run of its second key.
pub proof fn lemma_run_in_group<A: VecData, B: VecData>(
    a: Seq<A>,
    b: Seq<B>,
    l: int,
    v: A,
    key: Compound<A, B>,
)
    requires
        a.len() == b.len(),
        0 <= l <= a.len(),
        forall|i: int| 0 <= i < l ==> equiv(v, #[trigger] a[i]),
        forall|i: int| l <= i < a.len() ==> lt(v, #[trigger] a[i]),
        equiv(key.0, v),
    ensures
        run_len(zip(a, b), key) == run_len(b.take(l), key.1),
    decreases l,
{
    let rows = zip(a, b);
    if rows.len() > 0 {
        assert(rows[0] == Compound(a[0], b[0]));
        lemma_pair_order(key, rows[0]);
        lemma_chain::<A>(key.0, v, a[0]);
        lemma_chain::<A>(a[0], v, key.0);
        lemma_chain::<A>(a[0], key.0, v);
    }
    if l > 0 {
        assert(b.take(l)[0] == b[0]);
        if equiv(key, rows[0]) {
            let a_rest = a.drop_first();
            let b_rest = b.drop_first();
            assert forall|i: int| 0 <= i < l - 1 implies equiv(v, #[trigger] a_rest[i]) by {
                assert(equiv(v, a[i + 1]));
            }
            assert forall|i: int| l - 1 <= i < a_rest.len() implies lt(v, #[trigger] a_rest[i]) by {
                assert(lt(v, a[i + 1]));
            }
            lemma_run_in_group(a_rest, b_rest, l - 1, v, key);
            assert(zip(a_rest, b_rest) =~= rows.drop_first());
            assert(b.take(l).drop_first() =~= b_rest.take(l - 1));
        }
    }
}

/// The runs of one group: the runs of equal compound keys start with the
/// runs of equal second keys within the group of the least first key, and go
/// on as the runs of the other rows do.
pub proof fn lemma_group_runs<A: VecData, B: VecData>(
    a_l: Seq<A>,
    b_l: Seq<B>,
    a_r: Seq<A>,
    b_r: Seq<B>,
    l: int,
    r: int,
    v: A,
    room: int,
)
    requires
        a_l.len() == b_l.len(),
        a_r.len() == b_r.len(),
        a_l.len() <= u32::MAX,
        a_r.len() <= u32::MAX,
        0 <= l <= a_l.len(),
        0 <= r <= a_r.len(),
        room >= a_l.len() + a_r.len(),
        sorted_by::<Compound<A, B>, CmpLessThan>(zip(a_l, b_l)),
        sorted_by::<Compound<A, B>, CmpLessThan>(zip(a_r, b_r)),
        forall|i: int| 0 <= i < l ==> equiv(v, #[trigger] a_l[i]),
        forall|i: int| 0 <= i < r ==> equiv(v, #[trigger] a_r[i]),
        forall|i: int| l <= i < a_l.len() ==> lt(v, #[trigger] a_l[i]),
        forall|i: int| r <= i < a_r.len() ==> lt(v, #[trigger] a_r[i]),
    ensures
        partitioned(zip(a_l, b_l), zip(a_r, b_r), room) == partitioned(
            b_l.take(l),
            b_r.take(r),
            l + r,
        ) + partitioned(
            zip(a_l.skip(l), b_l.skip(l)),
            zip(a_r.skip(r), b_r.skip(r)),
            room - l - r,
        ),
    decreases l + r,
{
    let left = zip(a_l, b_l);
    let right = zip(a_r, b_r);
    let all = partitioned(left, right, room);
    let in_group = partitioned(b_l.take(l), b_r.take(r), l + r);
    let later = partitioned(
        zip(a_l.skip(l), b_l.skip(l)),
        zip(a_r.skip(r), b_r.skip(r)),
        room - l - r,
    );
    if l == 0 && r == 0 {
        assert(a_l.skip(0) =~= a_l && b_l.skip(0) =~= b_l);
        assert(a_r.skip(0) =~= a_r && b_r.skip(0) =~= b_r);
        assert(in_group =~= Seq::<Premerge>::empty());
        assert(all =~= in_group + later);
    } else {
        if left.len() > 0 {
            assert(left[0] == Compound(a_l[0], b_l[0]));
        }
        if right.len() > 0 {
            assert(right[0] == Compound(a_r[0], b_r[0]));
        }
        if left.len() > 0 && right.len() > 0 {
            lemma_pair_order(left[0], right[0]);
            lemma_pair_order(right[0], left[0]);
            lemma_chain::<A>(a_l[0], v, a_r[0]);
            lemma_chain::<A>(a_r[0], v, a_l[0]);
            lemma_chain::<A>(a_r[0], a_l[0], v);
            lemma_chain::<A>(a_l[0], a_r[0], v);
        }
        if l > 0 {
            assert(b_l.take(l)[0] == b_l[0]);
        }
        if r > 0 {
            assert(b_r.take(r)[0] == b_r[0]);
        }
        let key = least_head(left, right);
        let group_key = least_head(b_l.take(l), b_r.take(r));
        assert(key.1 == group_key);
        lemma_chain::<A>(key.0, v, v);
        assert(equiv(key.0, v));
        lemma_run_in_group(a_l, b_l, l, v, key);
        lemma_run_in_group(a_r, b_r, r, v, key);
        let run_l = run_len(left, key) as int;
        let run_r = run_len(right, key) as int;
        lemma_run(b_l.take(l), group_key);
        lemma_run(b_r.take(r), group_key);
        lemma_chain::<B>(group_key, group_key, group_key);
        assert(run_l + run_r > 0);
        let a_l2 = a_l.skip(run_l);
        let b_l2 = b_l.skip(run_l);
        let a_r2 = a_r.skip(run_r);
        let b_r2 = b_r.skip(run_r);
        assert(zip(a_l2, b_l2) =~= left.skip(run_l));
        assert(zip(a_r2, b_r2) =~= right.skip(run_r));
        assert forall|i: int, j: int| 0 <= i < j < left.skip(run_l).len() implies (
        #[trigger] left.skip(run_l)[i]).le(#[trigger] left.skip(run_l)[j]) by {
            assert(left[i + run_l].le(left[j + run_l]));
        }
        assert forall|i: int, j: int| 0 <= i < j < right.skip(run_r).len() implies (
        #[trigger] right.skip(run_r)[i]).le(#[trigger] right.skip(run_r)[j]) by {
            assert(right[i + run_r].le(right[j + run_r]));
        }
        assert forall|i: int| 0 <= i < l - run_l implies equiv(v, #[trigger] a_l2[i]) by {
            assert(equiv(v, a_l[i + run_l]));
        }
        assert forall|i: int| l - run_l <= i < a_l2.len() implies lt(v, #[trigger] a_l2[i]) by {
            assert(lt(v, a_l[i + run_l]));
        }
        assert forall|i: int| 0 <= i < r - run_r implies equiv(v, #[trigger] a_r2[i]) by {
            assert(equiv(v, a_r[i + run_r]));
        }
        assert forall|i: int| r - run_r <= i < a_r2.len() implies lt(v, #[trigger] a_r2[i]) by {
            assert(lt(v, a_r[i + run_r]));
        }
        lemma_group_runs(a_l2, b_l2, a_r2, b_r2, l - run_l, r - run_r, v, room - run_l - run_r);
        assert(b_l.take(l).skip(run_l) =~= b_l2.take(l - run_l));
        assert(b_r.take(r).skip(run_r) =~= b_r2.take(r - run_r));
        assert(a_l2.skip(l - run_l) =~= a_l.skip(l));
        assert(b_l2.skip(l - run_l) =~= b_l.skip(l));
        assert(a_r2.skip(r - run_r) =~= a_r.skip(r));
        assert(b_r2.skip(r - run_r) =~= b_r.skip(r));
        let group = Premerge { left: run_l as u32, right: run_r as u32 };
        assert(all
            == seq![group] + partitioned(left.skip(run_l), right.skip(run_r),
            room - run_l - run_r));
        assert(in_group == seq![group] + partitioned(
            b_l.take(l).skip(run_l),
            b_r.take(r).skip(run_r),
            l + r - run_l - run_r,
        ));
        assert(all =~= in_group + later);
    }
}

/// One more key column: splitting the runs of equal leading keys by the
/// next keys gives the runs of equal compound keys. The leading key `A` may
/// itself be the compound key of several columns, so every further key
/// column is one more application of this step.
pub proof fn lemma_subpartition_is_partition<A: VecData, B: VecData>(
    a_l: Seq<A>,
    b_l: Seq<B>,
    a_r: Seq<A>,
    b_r: Seq<B>,
    room: int,
)
    requires
        a_l.len() == b_l.len(),
        a_r.len() == b_r.len(),
        a_l.len() <= u32::MAX,
        a_r.len() <= u32::MAX,
        room >= a_l.len() + a_r.len(),
        sorted_by::<Compound<A, B>, CmpLessThan>(zip(a_l, b_l)),
        sorted_by::<Compound<A, B>, CmpLessThan>(zip(a_r, b_r)),
    ensures
        subpartitioned(partitioned(a_l, a_r, room), b_l, b_r) == partitioned(
            zip(a_l, b_l),
            zip(a_r, b_r),
            room,
        ),
    decreases a_l.len() + a_r.len(),
{
    let groups = partitioned(a_l, a_r, room);
    if a_l.len() + a_r.len() > 0 {
        lemma_first_keys_sorted(a_l, b_l);
        lemma_first_keys_sorted(a_r, b_r);
        lemma_first_group(a_l, a_r);
        let v = least_head(a_l, a_r);
        let l = run_len(a_l, v) as int;
        let r = run_len(a_r, v) as int;
        let rest = partitioned(a_l.skip(l), a_r.skip(r), room - l - r);
        assert(groups.drop_first() =~= rest);
        assert(groups[0] == Premerge { left: l as u32, right: r as u32 });
        assert(zip(a_l.skip(l), b_l.skip(l)) =~= zip(a_l, b_l).skip(l));
        assert(zip(a_r.skip(r), b_r.skip(r)) =~= zip(a_r, b_r).skip(r));
        assert forall|i: int, j: int| 0 <= i < j < zip(a_l, b_l).skip(l).len() implies (
        #[trigger] zip(a_l, b_l).skip(l)[i]).le(#[trigger] zip(a_l, b_l).skip(l)[j]) by {
            assert(zip(a_l, b_l)[i + l].le(zip(a_l, b_l)[j + l]));
        }
        assert forall|i: int, j: int| 0 <= i < j < zip(a_r, b_r).skip(r).len() implies (
        #[trigger] zip(a_r, b_r).skip(r)[i]).le(#[trigger] zip(a_r, b_r).skip(r)[j]) by {
            assert(zip(a_r, b_r)[i + r].le(zip(a_r, b_r)[j + r]));
        }
        lemma_subpartition_is_partition(
            a_l.skip(l),
            b_l.skip(l),
            a_r.skip(r),
            b_r.skip(r),
            room - l - r,
        );
        lemma_group_runs(a_l, b_l, a_r, b_r, l, r, v, room);
    } else {
        assert(zip(a_l, b_l) =~= Seq::<Compound<A, B>>::empty());
        assert(zip(a_r, b_r) =~= Seq::<Compound<A, B>>::empty());
    }
}

/// Three key columns: partitioning by the first keys, splitting by the
/// second and merging the third keys within the groups is the deduplicating
/// merge of the rows by their compound keys. Every further key column adds
/// one more split in the same way.
pub proof fn lemma_three_keys<A: VecData, B: VecData, C: VecData>(
    a_l: Seq<A>,
    b_l: Seq<B>,
    c_l: Seq<C>,
    a_r: Seq<A>,
    b_r: Seq<B>,
    c_r: Seq<C>,
    room: int,
)
    requires
        a_l.len() == b_l.len(),
        b_l.len() == c_l.len(),
        a_r.len() == b_r.len(),
        b_r.len() == c_r.len(),
        a_l.len() <= u32::MAX,
        a_r.len() <= u32::MAX,
        room >= a_l.len() + a_r.len(),
        strictly_sorted_by::<Compound<Compound<A, B>, C>, CmpLessThan>(zip(zip(a_l, b_l), c_l)),
        strictly_sorted_by::<Compound<Compound<A, B>, C>, CmpLessThan>(zip(zip(a_r, b_r), c_r)),
    ensures
        partitioned_dedup_ops(
            subpartitioned(partitioned(a_l, a_r, room), b_l, b_r),
            c_l,
            c_r,
        ) == dedup_ops::<Compound<Compound<A, B>, C>, CmpLessThan>(
            zip(zip(a_l, b_l), c_l),
            zip(zip(a_r, b_r), c_r),
            None,
        ),
{
    lemma_strictly_sorted(zip(zip(a_l, b_l), c_l));
    lemma_strictly_sorted(zip(zip(a_r, b_r), c_r));
    lemma_first_keys_sorted(zip(a_l, b_l), c_l);
    lemma_first_keys_sorted(zip(a_r, b_r), c_r);
    lemma_subpartition_is_partition(a_l, b_l, a_r, b_r, room);
    lemma_two_keys(zip(a_l, b_l), c_l, zip(a_r, b_r), c_r, room);
}

/// Any number of leading key columns of a partition, as a specification
/// sees them: one column, or leading columns and one more.
pub trait KeyColumns: Sized {
    /// The compound key of a row.
    type Key: VecData;

    /// All columns have the same number of rows.
    spec fn aligned(self) -> bool;

    /// The rows by their compound keys.
    spec fn rows(self) -> Seq<Self::Key>;

    /// The grouping that the merge primitives build for two partitions: the
    /// runs of equal keys of the first column, split by every further column.
    spec fn grouping(left: Self, right: Self, room: int) -> Seq<Premerge>;

    /// Partitioning by the first column and splitting by every further
    /// column gives the runs of equal compound keys.
    proof fn lemma_grouping(left: Self, right: Self, room: int)
        requires
            left.aligned(),
            right.aligned(),
            left.rows().len() <= u32::MAX,
            right.rows().len() <= u32::MAX,
            room >= left.rows().len() + right.rows().len(),
            sorted_by::<Self::Key, CmpLessThan>(left.rows()),
            sorted_by::<Self::Key, CmpLessThan>(right.rows()),
        ensures
            Self::grouping(left, right, room) == partitioned(left.rows(), right.rows(), room),
    ;
}

/// One key column.
pub struct OneKey<T> {
    pub column: Seq<T>,
}

/// Leading key columns and one more key column.
pub struct MoreKeys<K, T> {
    pub leading: K,
    pub column: Seq<T>,
}

impl<T: VecData> KeyColumns for OneKey<T> {
    type Key = T;

    open spec fn aligned(self) -> bool {
        true
    }

    open spec fn rows(self) -> Seq<T> {
        self.column
    }

    open spec fn grouping(left: Self, right: Self, room: int) -> Seq<Premerge> {
        partitioned(left.column, right.column, room)
    }

    proof fn lemma_grouping(left: Self, right: Self, room: int) {
    }
}

impl<K: KeyColumns, T: VecData> KeyColumns for MoreKeys<K, T> {
    type Key = Compound<K::Key, T>;

    open spec fn aligned(self) -> bool {
        self.leading.aligned() && self.leading.rows().len() == self.column.len()
    }

    open spec fn rows(self) -> Seq<Compound<K::Key, T>> {
        zip(self.leading.rows(), self.column)
    }

    open spec fn grouping(left: Self, right: Self, room: int) -> Seq<Premerge> {
        subpartitioned(K::grouping(left.leading, right.leading, room), left.column, right.column)
    }

    proof fn lemma_grouping(left: Self, right: Self, room: int) {
        lemma_first_keys_sorted(left.leading.rows(), left.column);
        lemma_first_keys_sorted(right.leading.rows(), right.column);
        K::lemma_grouping(left.leading, right.leading, room);
        lemma_subpartition_is_partition(
            left.leading.rows(),
            left.column,
            right.leading.rows(),
            right.column,
            room,
        );
    }
}

/// Any number of key columns: partitioning by the first column, splitting
/// by every further leading column and merging the last keys within the
/// groups is the deduplicating merge of the rows by their compound keys.
pub proof fn lemma_any_keys<K: KeyColumns, T: VecData>(
    leading_l: K,
    last_l: Seq<T>,
    leading_r: K,
    last_r: Seq<T>,
    room: int,
)
    requires
        leading_l.aligned(),
        leading_r.aligned(),
        leading_l.rows().len() == last_l.len(),
        leading_r.rows().len() == last_r.len(),
        last_l.len() <= u32::MAX,
        last_r.len() <= u32::MAX,
        room >= last_l.len() + last_r.len(),
        strictly_sorted_by::<Compound<K::Key, T>, CmpLessThan>(zip(leading_l.rows(), last_l)),
        strictly_sorted_by::<Compound<K::Key, T>, CmpLessThan>(zip(leading_r.rows(), last_r)),
    ensures
        partitioned_dedup_ops(K::grouping(leading_l, leading_r, room), last_l, last_r)
            == dedup_ops::<Compound<K::Key, T>, CmpLessThan>(
            zip(leading_l.rows(), last_l),
            zip(leading_r.rows(), last_r),
            None,
        ),
{
    lemma_strictly_sorted(zip(leading_l.rows(), last_l));
    lemma_strictly_sorted(zip(leading_r.rows(), last_r));
    lemma_first_keys_sorted(leading_l.rows(), last_l);
    lemma_first_keys_sorted(leading_r.rows(), last_r);
    K::lemma_grouping(leading_l, leading_r, room);
    lemma_two_keys(leading_l.rows(), last_l, leading_r.rows(), last_r, room);
}

} // verus!
