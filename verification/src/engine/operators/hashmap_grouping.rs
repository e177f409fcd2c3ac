//! Assigning dense group ids to the values of a key column.

use std::hash::Hash;

use fnv::FnvHashMap;
use vstd::prelude::*;
use vstd::std_specs::hash::obeys_key_model;

use crate::engine::scratchpad::{
    format_operator, operator_text, BufferRef, Scalar, Scratchpad, SlotView, VecOperator,
    VecType,
};
use crate::engine::vec_data::VecData;
use crate::errors::QueryError;

verus! {

#[verifier::external_type_specification]
#[verifier::external_body]
pub struct ExFnvHasher(fnv::FnvHasher);

#[verifier::external_type_specification]
#[verifier::external_body]
#[verifier::reject_recursive_types(H)]
pub struct ExBuildHasherDefault<H>(core::hash::BuildHasherDefault<H>);

/// `FnvHashMap::default()`: a map without entries.
#[verifier::external_body]
fn empty_map<T: Hash + Eq>() -> (ids: FnvHashMap<T, u32>)
    ensures
        ids@.dom() == Set::<T>::empty(),
{
    FnvHashMap::default()
}

/// `HashMap::get` on a map that hashes with FNV: the value stored for `key`,
/// for a key type whose `Hash` and `Eq` agree with equality.
#[verifier::external_body]
fn stored_id<T: Hash + Eq>(map: &FnvHashMap<T, u32>, key: &T) -> (id: Option<u32>)
    ensures
        obeys_key_model::<T>() ==> id == if map@.dom().contains(*key) {
            Some(map@[*key])
        } else {
            None::<u32>
        },
{
    map.get(key).copied()
}

/// `HashMap::insert` on a map that hashes with FNV: stores `id` for `key`,
/// for a key type whose `Hash` and `Eq` agree with equality.
#[verifier::external_body]
fn store_id<T: Hash + Eq>(map: &mut FnvHashMap<T, u32>, key: T, id: u32)
    ensures
        obeys_key_model::<T>() ==> final(map)@ == old(map)@.insert(key, id),
{
    map.insert(key, id);
}

/// The distinct values and the group ids after the values of `input` were
/// grouped: a value that is among the distinct values has its position
/// there as id, any other value is appended to them.
pub open spec fn grouped<T>(unique: Seq<T>, input: Seq<T>) -> (Seq<T>, Seq<u32>)
    decreases input.len(),
{
    if input.len() == 0 {
        (unique, Seq::empty())
    } else {
        let before = grouped(unique, input.drop_last());
        let value = input.last();
        if before.0.contains(value) {
            (before.0, before.1.push(before.0.index_of(value) as u32))
        } else {
            (before.0.push(value), before.1.push(before.0.len() as u32))
        }
    }
}

/// Grouping more values does not give fewer distinct values.
pub proof fn lemma_grouped_grows<T>(unique: Seq<T>, input: Seq<T>, k: int)
    requires
        0 <= k <= input.len(),
    ensures
        grouped(unique, input.take(k)).0.len() <= grouped(unique, input).0.len(),
    decreases input.len(),
{
    if k < input.len() {
        lemma_grouped_grows(unique, input.drop_last(), k);
        assert(input.drop_last().take(k) =~= input.take(k));
    } else {
        assert(input.take(k) =~= input);
    }
}

/// The ids are the positions of the distinct values.
pub open spec fn indexes<T>(ids: Map<T, u32>, unique: Seq<T>) -> bool {
    &&& unique.no_duplicates()
    &&& unique.len() <= u32::MAX + 1
    &&& forall|value: T| ids.dom().contains(value) <==> unique.contains(value)
    &&& forall|i: int| 0 <= i < unique.len() ==> ids[#[trigger] unique[i]] == i
}

/// Groups the values of the buffer `input`: writes the id of every value to
/// `grouping_key_out`, collects the distinct values in `unique_out` in the
/// order in which they were first seen, and writes their number to
/// `cardinality_out`. The id of a value is its position in `unique_out`.
#[derive(Debug)]
pub struct HashMapGrouping<T: VecData + Hash + Eq> {
    input: BufferRef<T>,
    unique_out: BufferRef<T>,
    grouping_key_out: BufferRef<u32>,
    cardinality_out: BufferRef<Scalar<i64>>,
    map: FnvHashMap<T, u32>,
}

impl<'a, T: VecData + VecType<'a> + Hash + Eq + 'a> HashMapGrouping<T> {
    /// The ids that the operator has assigned so far.
    pub closed spec fn ids(&self) -> Map<T, u32> {
        self.map@
    }

    /// The positions of the buffers of the operator: input, distinct values,
    /// group ids and cardinality.
    pub closed spec fn wiring(&self) -> (int, int, int, int) {
        (
            self.input.i as int,
            self.unique_out.i as int,
            self.grouping_key_out.i as int,
            self.cardinality_out.i as int,
        )
    }

    /// The operator finds what it needs: its buffers exist, the input and
    /// the two output columns are three different buffers, and they hold
    /// columns of the types of the operator.
    pub open spec fn wired(&self, scratchpad: Seq<crate::engine::scratchpad::SlotView<'a>>) -> bool {
        let (input, unique_out, grouping_key_out, cardinality_out) = self.wiring();
        &&& input < scratchpad.len()
        &&& unique_out < scratchpad.len()
        &&& grouping_key_out < scratchpad.len()
        &&& cardinality_out < scratchpad.len()
        &&& unique_out != grouping_key_out
        &&& input != unique_out
        &&& input != grouping_key_out
        &&& T::elements(scratchpad[input]) is Some
        &&& T::elements(scratchpad[unique_out]) is Some
        &&& <u32 as VecType<'a>>::elements(scratchpad[grouping_key_out]) is Some
    }

    /// An operator on the given buffers that has not seen any value.
    pub fn new(
        input: BufferRef<T>,
        unique_out: BufferRef<T>,
        grouping_key_out: BufferRef<u32>,
        cardinality_out: BufferRef<Scalar<i64>>,
    ) -> (operator: HashMapGrouping<T>)
        ensures
            operator.ids().dom() == Set::<T>::empty(),
            operator.wiring() == (
                input.i as int,
                unique_out.i as int,
                grouping_key_out.i as int,
                cardinality_out.i as int,
            ),
    {
        HashMapGrouping::<T> {
            input,
            unique_out,
            grouping_key_out,
            cardinality_out,
            map: empty_map(),
        }
    }

    /// An operator on the given buffers that has not seen any value, as a
    /// node of a query plan.
    pub fn boxed(
        input: BufferRef<T>,
        unique_out: BufferRef<T>,
        grouping_key_out: BufferRef<u32>,
        cardinality_out: BufferRef<Scalar<i64>>,
        _max_index: usize,
    ) -> (operator: Box<dyn VecOperator<'a> + 'a>)
        ensures
            operator.input_positions() == seq![input.i],
            operator.output_positions() == seq![
                unique_out.i,
                grouping_key_out.i,
                cardinality_out.i,
            ],
    {
        let operator = Box::new(
            HashMapGrouping::new(input, unique_out, grouping_key_out, cardinality_out),
        );
        return operator;
    }

    /// Groups `input` given the distinct values and the ids so far.
    fn group_values(&mut self, input: &[T], unique: &mut Vec<T>, grouping: &mut Vec<u32>) -> (res:
        Result<(), QueryError>)
        ensures
            final(self).wiring() == old(self).wiring(),
            obeys_key_model::<T>() && indexes(old(self).ids(), old(unique)@) ==> indexes(
                final(self).ids(),
                final(unique)@,
            ),
            obeys_key_model::<T>() && indexes(old(self).ids(), old(unique)@) && res is Ok
                ==> final(unique)@ == grouped(old(unique)@, input@).0 && final(grouping)@
                == old(grouping)@ + grouped(
                old(unique)@,
                input@,
            ).1,
            res is Err ==> res->Err_0 is FatalError,
            obeys_key_model::<T>() && indexes(old(self).ids(), old(unique)@)
                ==> (res is Err <==> grouped(
                old(unique)@,
                input@,
            ).0.len() > u32::MAX + 1),
    {
        let ghost sound = obeys_key_model::<T>() && indexes(self.ids(), unique@);
        let mut k: usize = 0;
        assert(input@.take(0) =~= Seq::<T>::empty());
        assert(grouping@ =~= old(grouping)@ + grouped(old(unique)@, input@.take(0)).1);
        while k < input.len()
            invariant
                k <= input@.len(),
                self.wiring() == old(self).wiring(),
                sound ==> obeys_key_model::<T>(),
                sound == (obeys_key_model::<T>() && indexes(old(self).ids(), old(unique)@)),
                sound ==> indexes(self.ids(), unique@),
                sound ==> unique@ == grouped(old(unique)@, input@.take(k as int)).0 && grouping@
                    == old(grouping)@ + grouped(old(unique)@, input@.take(k as int)).1,
            decreases input@.len() - k,
        {
            let value = input[k];
            proof {
                assert(input@.take(k + 1).drop_last() =~= input@.take(k as int));
                assert(input@.take(k + 1).last() == value);
            }
            let id = match stored_id(&self.map, &value) {
                Some(id) => {
                    proof {
                        if sound {
                            assert(self.ids().dom().contains(value));
                            assert(unique@.contains(value));
                            let at = unique@.index_of(value);
                            assert(0 <= at < unique@.len() && unique@[at] == value);
                        }
                    }
                    id
                },
                None => {
                    if unique.len() > u32::MAX as usize {
                        proof {
                            if sound {
                                assert(!unique@.contains(value));
                                lemma_grouped_grows(old(unique)@, input@, k + 1);
                            }
                        }
                        return Err(
                            QueryError::FatalError("Too many distinct values to group".to_owned()),
                        );
                    }
                    let id = unique.len() as u32;
                    let ghost known = unique@;
                    store_id(&mut self.map, value, id);
                    unique.push(value);
                    proof {
                        if sound {
                            assert forall|x: T|
                                self.ids().dom().contains(x) <==> unique@.contains(x) by {
                                if known.contains(x) {
                                    let i = known.index_of(x);
                                    assert(unique@[i] == x);
                                }
                                if unique@.contains(x) && x != value {
                                    let i = unique@.index_of(x);
                                    assert(known[i] == x);
                                }
                                assert(unique@[known.len() as int] == value);
                            }
                            assert forall|i: int| 0 <= i < unique@.len() implies self.ids()[
                            #[trigger] unique@[i]] == i by {
                                if i < known.len() {
                                    assert(known[i] == unique@[i]);
                                    assert(known.contains(known[i]));
                                }
                            }
                        }
                    }
                    id
                },
            };
            grouping.push(id);
            proof {
                if sound {
                    assert(grouping@ =~= old(grouping)@ + grouped(
                        old(unique)@,
                        input@.take(k + 1),
                    ).1);
                }
            }
            k += 1;
        }
        assert(input@.take(k as int) =~= input@);
        Ok(())
    }
}

impl<'a, T: VecData + VecType<'a> + Hash + Eq + 'a> VecOperator<'a> for HashMapGrouping<T> {
    fn execute(&mut self, stream: bool, scratchpad: &mut Scratchpad<'a>) -> (res: Result<
        (),
        QueryError,
    >)
        ensures
            final(self).wiring() == old(self).wiring(),
            res is Err && res->Err_0 is TypeError <==> !old(self).wired(old(scratchpad)@),
            res is Err ==> res->Err_0 is TypeError || res->Err_0 is FatalError,
            old(self).wired(old(scratchpad)@) && obeys_key_model::<T>() && indexes(
                old(self).ids(),
                T::elements(old(scratchpad)@[old(self).wiring().1])->0,
            ) ==> (res is Err <==> grouped(
                T::elements(old(scratchpad)@[old(self).wiring().1])->0,
                T::elements(old(scratchpad)@[old(self).wiring().0])->0,
            ).0.len() > u32::MAX + 1),
            res is Err && res->Err_0 is TypeError ==> final(scratchpad)@ == old(scratchpad)@,
            res is Ok ==> {
                let (input, unique_out, grouping_key_out, cardinality_out) = old(self).wiring();
                let values = T::elements(old(scratchpad)@[input]);
                let unique = T::elements(old(scratchpad)@[unique_out]);
                let grouping = <u32 as VecType<'a>>::elements(old(scratchpad)@[grouping_key_out]);
                let result = grouped(unique->0, values->0);
                &&& values is Some
                &&& unique is Some
                &&& grouping is Some
                &&& obeys_key_model::<T>() && indexes(old(self).ids(), unique->0) ==> {
                    &&& indexes(final(self).ids(), result.0)
                    &&& final(scratchpad)@ == old(scratchpad)@.update(
                        grouping_key_out,
                        <u32 as VecType<'a>>::slot_of(
                            if stream {
                                result.1
                            } else {
                                grouping->0 + result.1
                            },
                        ),
                    ).update(unique_out, T::slot_of(result.0)).update(
                        cardinality_out,
                        SlotView::Constant(result.0.len() as i64),
                    )
                }
            },
    {
        let n = scratchpad.len();
        if self.unique_out.i >= n || self.grouping_key_out.i >= n || self.cardinality_out.i >= n
            || self.unique_out.i == self.grouping_key_out.i || self.input.i == self.unique_out.i
            || self.input.i == self.grouping_key_out.i {
            return Err(QueryError::TypeError("Buffers are missing or overlap".to_owned()));
        }
        if scratchpad.get(&self.input).is_err() || scratchpad.get(&self.unique_out).is_err()
            || scratchpad.get(&self.grouping_key_out).is_err() {
            return Err(QueryError::TypeError("Buffer holds another type".to_owned()));
        }
        let mut unique = scratchpad.take(&self.unique_out);
        let mut grouping = scratchpad.take(&self.grouping_key_out);
        let ghost kept = grouping@;
        if stream {
            grouping.clear();
        }
        assert(grouping@ + Seq::<u32>::empty() =~= grouping@);
        let outcome = match scratchpad.get(&self.input) {
            Ok(raw_grouping_key) => self.group_values(raw_grouping_key, &mut unique, &mut grouping),
            Err(e) => Err(e),
        };
        let count = if unique.len() > u32::MAX as usize {
            u32::MAX as i64 + 1
        } else {
            unique.len() as i64
        };
        proof {
            if stream {
                assert(Seq::<u32>::empty() + grouped(
                    T::elements(old(scratchpad)@[self.unique_out.i as int])->0,
                    T::elements(old(scratchpad)@[self.input.i as int])->0,
                ).1 =~= grouped(
                    T::elements(old(scratchpad)@[self.unique_out.i as int])->0,
                    T::elements(old(scratchpad)@[self.input.i as int])->0,
                ).1);
            }
        }
        let ghost taken = scratchpad@;
        scratchpad.set(&self.grouping_key_out, grouping);
        scratchpad.set(&self.unique_out, unique);
        match outcome {
            Ok(()) => {
                scratchpad.set_const(self.cardinality_out.i, count);
                proof {
                    let g = self.grouping_key_out.i as int;
                    let u = self.unique_out.i as int;
                    let c = self.cardinality_out.i as int;
                    assert(scratchpad@ =~= old(scratchpad)@.update(g, scratchpad@[g]).update(
                        u,
                        scratchpad@[u],
                    ).update(c, scratchpad@[c]));
                }
                Ok(())
            },
            Err(e) => Err(e),
        }
    }

    fn init(&mut self, total_count: usize, batch_size: usize, scratchpad: &mut Scratchpad<'a>)
        ensures
            final(self).wiring() == old(self).wiring(),
            final(self).ids() == old(self).ids(),
            final(scratchpad)@ == ({
                let (_, unique_out, grouping_key_out, _) = old(self).wiring();
                if unique_out < old(scratchpad)@.len() && grouping_key_out < old(scratchpad)@.len() {
                    old(scratchpad)@.update(unique_out, T::slot_of(Seq::empty())).update(
                        grouping_key_out,
                        <u32 as VecType<'a>>::slot_of(Seq::empty()),
                    )
                } else {
                    old(scratchpad)@
                }
            }),
    {
        if self.unique_out.i < scratchpad.len() && self.grouping_key_out.i < scratchpad.len() {
            scratchpad.set(&self.unique_out, Vec::new());
            scratchpad.set(&self.grouping_key_out, Vec::with_capacity(batch_size));
        }
    }

    closed spec fn input_positions(&self) -> Seq<usize> {
        seq![self.input.i]
    }

    closed spec fn output_positions(&self) -> Seq<usize> {
        seq![self.unique_out.i, self.grouping_key_out.i, self.cardinality_out.i]
    }

    fn inputs(&self) -> (positions: Vec<usize>) {
        vec![self.input.any()]
    }

    fn outputs(&self) -> (positions: Vec<usize>) {
        vec![self.unique_out.any(), self.grouping_key_out.any(), self.cardinality_out.any()]
    }

    fn can_stream_input(&self, i: usize) -> (streams: bool)
        ensures
            streams,
    {
        true
    }

    fn can_stream_output(&self, output: usize) -> (streams: bool)
        ensures
            streams == (output != self.wiring().1),
    {
        output != self.unique_out.i
    }

    fn can_block_output(&self) -> (blocks: bool)
        ensures
            blocks,
    {
        true
    }

    fn allocates(&self) -> (allocates: bool)
        ensures
            allocates,
    {
        true
    }

    fn display_op(&self, alternate: bool) -> (text: String)
        ensures
            text@ == operator_text("hashmap_grouping"@, self.input_positions()),
    {
        format_operator("hashmap_grouping", self.inputs().as_slice())
    }
}

} // verus!
