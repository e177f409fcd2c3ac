//! The buffers that the operators of a query plan read and write.

use std::marker::PhantomData;

use vstd::prelude::*;
use vstd::string::*;

use crate::text::{append_decimals, decimals};

use crate::engine::batch_merging::MergeOp;
use crate::engine::types::{ColumnView, TypedVec};
use crate::errors::QueryError;
use crate::mem_store::value::Val;

verus! {

/// The content of one buffer: a column, the ops stream of a merge, or a constant.
#[derive(Debug)]
pub enum Slot<'a> {
    Column(TypedVec<'a>),
    MergeOps(Vec<MergeOp>),
    Constant(i64),
}

/// What a `Slot` holds.
pub enum SlotView<'a> {
    Column(ColumnView<'a>),
    MergeOps(Seq<MergeOp>),
    Constant(i64),
}

impl<'a> View for Slot<'a> {
    type V = SlotView<'a>;

    open spec fn view(&self) -> SlotView<'a> {
        match *self {
            Slot::Column(column) => SlotView::Column(column@),
            Slot::MergeOps(ops) => SlotView::MergeOps(ops@),
            Slot::Constant(value) => SlotView::Constant(value),
        }
    }
}

/// The type of a constant in a buffer.
#[derive(Debug)]
pub struct Scalar<T> {
    pub t: PhantomData<T>,
}

/// A handle to the buffer at position `i` of a scratchpad, which holds elements of type `T`.
#[derive(Debug)]
pub struct BufferRef<T> {
    pub i: usize,
    pub t: PhantomData<T>,
}

impl<T> BufferRef<T> {
    /// A handle to the buffer at position `i`.
    pub fn new(i: usize) -> (buffer: BufferRef<T>)
        ensures
            buffer.i == i,
    {
        BufferRef { i, t: PhantomData }
    }

    /// The position of the buffer, without its type.
    pub fn any(&self) -> (i: usize)
        ensures
            i == self.i,
    {
        self.i
    }
}

/// An element type that a buffer can hold.
pub trait VecType<'a>: Sized {
    /// The elements of a buffer of this type, `None` for a buffer of another type.
    spec fn elements(slot: SlotView<'a>) -> Option<Seq<Self>>;

    /// The buffer that holds `data`.
    spec fn slot_of(data: Seq<Self>) -> SlotView<'a>;

    /// A buffer of this type holds the elements it was made of.
    proof fn slot_elements(data: Seq<Self>)
        ensures
            Self::elements(Self::slot_of(data)) == Some(data),
    ;

    /// The elements of `slot` if it is a buffer of this type.
    fn unwrap<'b>(slot: &'b Slot<'a>) -> (data: Option<&'b [Self]>)
        ensures
            match data {
                Some(data) => Self::elements(slot@) == Some(data@),
                None => Self::elements(slot@) is None,
            },
    ;

    /// A buffer that holds `data`.
    fn wrap(data: Vec<Self>) -> (slot: Slot<'a>)
        ensures
            slot@ == Self::slot_of(data@),
    ;

    /// The elements of `slot`, none if it is a buffer of another type.
    fn into_vec(slot: Slot<'a>) -> (data: Vec<Self>)
        ensures
            data@ == match Self::elements(slot@) {
                Some(data) => data,
                None => Seq::empty(),
            },
    ;
}

impl<'a> VecType<'a> for u8 {
    open spec fn elements(slot: SlotView<'a>) -> Option<Seq<u8>> {
        match slot {
            SlotView::Column(ColumnView::U8(data)) => Some(data),
            _ => None,
        }
    }

    open spec fn slot_of(data: Seq<u8>) -> SlotView<'a> {
        SlotView::Column(ColumnView::U8(data))
    }

    proof fn slot_elements(data: Seq<u8>) {
    }

    fn unwrap<'b>(slot: &'b Slot<'a>) -> (data: Option<&'b [u8]>) {
        match slot {
            Slot::Column(TypedVec::U8(data)) => Some(data.as_slice()),
            _ => None,
        }
    }

    fn wrap(data: Vec<u8>) -> (slot: Slot<'a>) {
        Slot::Column(TypedVec::U8(data))
    }

    fn into_vec(slot: Slot<'a>) -> (data: Vec<u8>) {
        match slot {
            Slot::Column(TypedVec::U8(data)) => data,
            _ => Vec::new(),
        }
    }
}

impl<'a> VecType<'a> for u32 {
    open spec fn elements(slot: SlotView<'a>) -> Option<Seq<u32>> {
        match slot {
            SlotView::Column(ColumnView::U32(data)) => Some(data),
            _ => None,
        }
    }

    open spec fn slot_of(data: Seq<u32>) -> SlotView<'a> {
        SlotView::Column(ColumnView::U32(data))
    }

    proof fn slot_elements(data: Seq<u32>) {
    }

    fn unwrap<'b>(slot: &'b Slot<'a>) -> (data: Option<&'b [u32]>) {
        match slot {
            Slot::Column(TypedVec::U32(data)) => Some(data.as_slice()),
            _ => None,
        }
    }

    fn wrap(data: Vec<u32>) -> (slot: Slot<'a>) {
        Slot::Column(TypedVec::U32(data))
    }

    fn into_vec(slot: Slot<'a>) -> (data: Vec<u32>) {
        match slot {
            Slot::Column(TypedVec::U32(data)) => data,
            _ => Vec::new(),
        }
    }
}

impl<'a> VecType<'a> for i64 {
    open spec fn elements(slot: SlotView<'a>) -> Option<Seq<i64>> {
        match slot {
            SlotView::Column(ColumnView::I64(data)) => Some(data),
            _ => None,
        }
    }

    open spec fn slot_of(data: Seq<i64>) -> SlotView<'a> {
        SlotView::Column(ColumnView::I64(data))
    }

    proof fn slot_elements(data: Seq<i64>) {
    }

    fn unwrap<'b>(slot: &'b Slot<'a>) -> (data: Option<&'b [i64]>) {
        match slot {
            Slot::Column(TypedVec::I64(data)) => Some(data.as_slice()),
            _ => None,
        }
    }

    fn wrap(data: Vec<i64>) -> (slot: Slot<'a>) {
        Slot::Column(TypedVec::I64(data))
    }

    fn into_vec(slot: Slot<'a>) -> (data: Vec<i64>) {
        match slot {
            Slot::Column(TypedVec::I64(data)) => data,
            _ => Vec::new(),
        }
    }
}

impl<'a> VecType<'a> for &'a str {
    open spec fn elements(slot: SlotView<'a>) -> Option<Seq<&'a str>> {
        match slot {
            SlotView::Column(ColumnView::Str(data)) => Some(data),
            _ => None,
        }
    }

    open spec fn slot_of(data: Seq<&'a str>) -> SlotView<'a> {
        SlotView::Column(ColumnView::Str(data))
    }

    proof fn slot_elements(data: Seq<&'a str>) {
    }

    fn unwrap<'b>(slot: &'b Slot<'a>) -> (data: Option<&'b [&'a str]>) {
        match slot {
            Slot::Column(TypedVec::Str(data)) => Some(data.as_slice()),
            _ => None,
        }
    }

    fn wrap(data: Vec<&'a str>) -> (slot: Slot<'a>) {
        Slot::Column(TypedVec::Str(data))
    }

    fn into_vec(slot: Slot<'a>) -> (data: Vec<&'a str>) {
        match slot {
            Slot::Column(TypedVec::Str(data)) => data,
            _ => Vec::new(),
        }
    }
}

impl<'a> VecType<'a> for Val<'a> {
    open spec fn elements(slot: SlotView<'a>) -> Option<Seq<Val<'a>>> {
        match slot {
            SlotView::Column(ColumnView::Val(data)) => Some(data),
            _ => None,
        }
    }

    open spec fn slot_of(data: Seq<Val<'a>>) -> SlotView<'a> {
        SlotView::Column(ColumnView::Val(data))
    }

    proof fn slot_elements(data: Seq<Val<'a>>) {
    }

    fn unwrap<'b>(slot: &'b Slot<'a>) -> (data: Option<&'b [Val<'a>]>) {
        match slot {
            Slot::Column(TypedVec::Val(data)) => Some(data.as_slice()),
            _ => None,
        }
    }

    fn wrap(data: Vec<Val<'a>>) -> (slot: Slot<'a>) {
        Slot::Column(TypedVec::Val(data))
    }

    fn into_vec(slot: Slot<'a>) -> (data: Vec<Val<'a>>) {
        match slot {
            Slot::Column(TypedVec::Val(data)) => data,
            _ => Vec::new(),
        }
    }
}

impl<'a> VecType<'a> for MergeOp {
    open spec fn elements(slot: SlotView<'a>) -> Option<Seq<MergeOp>> {
        match slot {
            SlotView::MergeOps(data) => Some(data),
            _ => None,
        }
    }

    open spec fn slot_of(data: Seq<MergeOp>) -> SlotView<'a> {
        SlotView::MergeOps(data)
    }

    proof fn slot_elements(data: Seq<MergeOp>) {
    }

    fn unwrap<'b>(slot: &'b Slot<'a>) -> (data: Option<&'b [MergeOp]>) {
        match slot {
            Slot::MergeOps(data) => Some(data.as_slice()),
            _ => None,
        }
    }

    fn wrap(data: Vec<MergeOp>) -> (slot: Slot<'a>) {
        Slot::MergeOps(data)
    }

    fn into_vec(slot: Slot<'a>) -> (data: Vec<MergeOp>) {
        match slot {
            Slot::MergeOps(data) => data,
            _ => Vec::new(),
        }
    }
}

/// The buffers of one query task, addressed by position.
#[derive(Debug)]
pub struct Scratchpad<'a> {
    buffers: Vec<Slot<'a>>,
}

impl<'a> View for Scratchpad<'a> {
    type V = Seq<SlotView<'a>>;

    closed spec fn view(&self) -> Seq<SlotView<'a>> {
        self.buffers@.map_values(|slot: Slot<'a>| slot@)
    }
}

/// The failure of an operator that finds no buffer, or one of another type,
/// where it is wired to.
fn type_error() -> (error: QueryError)
    ensures
        error is TypeError,
{
    QueryError::TypeError("Buffer is missing or holds another type".to_owned())
}

impl<'a> Scratchpad<'a> {
    /// A scratchpad of `count` buffers, each an empty column of nulls.
    pub fn new(count: usize) -> (scratchpad: Scratchpad<'a>)
        ensures
            scratchpad@ == Seq::new(count as nat, |i: int| SlotView::Column(ColumnView::Null(0))),
    {
        let mut buffers: Vec<Slot<'a>> = Vec::with_capacity(count);
        let mut i: usize = 0;
        while i < count
            invariant
                i <= count,
                buffers@.len() == i,
                forall|k: int|
                    0 <= k < i ==> (#[trigger] buffers@[k])@ == SlotView::Column(
                        ColumnView::<'a>::Null(0),
                    ),
            decreases count - i,
        {
            buffers.push(Slot::Column(TypedVec::Null(0)));
            i += 1;
        }
        let scratchpad = Scratchpad { buffers };
        assert(scratchpad@ =~= Seq::new(
            count as nat,
            |i: int| SlotView::Column(ColumnView::Null(0)),
        ));
        scratchpad
    }

    /// Number of buffers.
    pub fn len(&self) -> (n: usize)
        ensures
            n == self@.len(),
    {
        self.buffers.len()
    }

    /// The elements of the buffer that `buffer` refers to. Fails if there is
    /// no such buffer or if it holds another type.
    pub fn get<'b, T: VecType<'a>>(&'b self, buffer: &BufferRef<T>) -> (res: Result<
        &'b [T],
        QueryError,
    >)
        ensures
            match res {
                Ok(data) => buffer.i < self@.len() && T::elements(self@[buffer.i as int]) == Some(
                    data@,
                ),
                Err(e) => e is TypeError && (buffer.i >= self@.len() || T::elements(
                    self@[buffer.i as int],
                ) is None),
            },
    {
        if buffer.i >= self.buffers.len() {
            return Err(type_error());
        }
        match T::unwrap(&self.buffers[buffer.i]) {
            Some(data) => Ok(data),
            None => Err(type_error()),
        }
    }

    /// Replaces the buffer that `buffer` refers to by `data`.
    pub fn set<T: VecType<'a>>(&mut self, buffer: &BufferRef<T>, data: Vec<T>)
        requires
            buffer.i < old(self)@.len(),
        ensures
            final(self)@ == old(self)@.update(buffer.i as int, T::slot_of(data@)),
    {
        let slot = T::wrap(data);
        self.buffers.set(buffer.i, slot);
        assert(self@ =~= old(self)@.update(buffer.i as int, T::slot_of(data@)));
    }

    /// Takes the elements out of the buffer that `buffer` refers to and
    /// leaves an empty column of nulls in their place.
    pub fn take<T: VecType<'a>>(&mut self, buffer: &BufferRef<T>) -> (data: Vec<T>)
        requires
            buffer.i < old(self)@.len(),
            T::elements(old(self)@[buffer.i as int]) is Some,
        ensures
            T::elements(old(self)@[buffer.i as int]) == Some(data@),
            final(self)@ == old(self)@.update(
                buffer.i as int,
                SlotView::Column(ColumnView::Null(0)),
            ),
    {
        let mut slot = Slot::Column(TypedVec::Null(0));
        core::mem::swap(&mut slot, &mut self.buffers[buffer.i]);
        assert(self@ =~= old(self)@.update(buffer.i as int, SlotView::Column(ColumnView::Null(0))));
        T::into_vec(slot)
    }

    /// The constant in the buffer at position `i`, if it holds one.
    pub fn get_const(&self, i: usize) -> (value: Option<i64>)
        ensures
            value == if i < self@.len() {
                match self@[i as int] {
                    SlotView::Constant(value) => Some(value),
                    _ => None,
                }
            } else {
                None::<i64>
            },
    {
        if i >= self.buffers.len() {
            return None;
        }
        match &self.buffers[i] {
            Slot::Constant(value) => Some(*value),
            _ => None,
        }
    }

    /// Replaces the buffer at position `i` by the constant `value`.
    pub fn set_const(&mut self, i: usize, value: i64)
        requires
            i < old(self)@.len(),
        ensures
            final(self)@ == old(self)@.update(i as int, SlotView::Constant(value)),
    {
        self.buffers.set(i, Slot::Constant(value));
        assert(self@ =~= old(self)@.update(i as int, SlotView::Constant(value)));
    }
}

/// The text that stands for an operator of the name `name` that reads the
/// buffers at the positions `buffers`: the name followed, in round brackets,
/// by the positions.
pub open spec fn operator_text(name: Seq<char>, buffers: Seq<usize>) -> Seq<char> {
    name + "("@ + decimals(buffers) + ")"@
}

/// Writes the text that stands for an operator.
pub(crate) fn format_operator(name: &str, buffers: &[usize]) -> (text: String)
    ensures
        text@ == operator_text(name@, buffers@),
{
    let mut text = name.to_owned();
    text.append("(");
    append_decimals(&mut text, buffers);
    text.append(")");
    text
}

/// A node of a query plan: reads some buffers of a scratchpad and writes others.
pub trait VecOperator<'a> {
    /// Runs the operator on the current content of its inputs. With `stream`
    /// the inputs hold one batch of a longer column.
    fn execute(&mut self, stream: bool, scratchpad: &mut Scratchpad<'a>) -> (res: Result<
        (),
        QueryError,
    >)
        ensures
            final(scratchpad)@.len() == old(scratchpad)@.len(),
    ;

    /// Prepares the outputs for a run over `total_count` rows in batches of `batch_size`.
    fn init(&mut self, total_count: usize, batch_size: usize, scratchpad: &mut Scratchpad<'a>)
        ensures
            final(scratchpad)@.len() == old(scratchpad)@.len(),
    ;

    /// The positions of the buffers that the operator reads.
    spec fn input_positions(&self) -> Seq<usize>;

    /// The positions of the buffers that the operator writes.
    spec fn output_positions(&self) -> Seq<usize>;

    /// The positions of the buffers that the operator reads.
    fn inputs(&self) -> (positions: Vec<usize>)
        ensures
            positions@ == self.input_positions(),
    ;

    /// The positions of the buffers that the operator writes.
    fn outputs(&self) -> (positions: Vec<usize>)
        ensures
            positions@ == self.output_positions(),
    ;

    /// Whether the operator can read the buffer at position `i` batch by batch.
    fn can_stream_input(&self, i: usize) -> bool;

    /// Whether the operator can write the buffer at position `i` batch by batch.
    fn can_stream_output(&self, i: usize) -> bool;

    /// Whether the operator has outputs that collect rows over all batches.
    fn can_block_output(&self) -> bool;

    /// Whether the operator produces new storage.
    fn allocates(&self) -> bool;

    /// The operator and its inputs as text.
    fn display_op(&self, alternate: bool) -> String;
}

} // verus!
