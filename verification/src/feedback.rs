//! The pair of nodes that breaks a cycle.
//!
//! The source takes a value in, the sink hands out the value that the source
//! took in last. Both share one cell, so what is written to the source in one
//! tick is read from the sink, which the graph ticks ahead of it, in the
//! next.

use core::convert::Infallible;
use std::cell::RefCell;
use std::rc::Rc;
use vstd::prelude::*;

use crate::node::Node;

verus! {

/// `std::cell::RefCell`, a cell that can be written through a shared
/// reference. The verifier does not look inside.
#[verifier::external_type_specification]
#[verifier::external_body]
#[verifier::reject_recursive_types(T)]
pub struct ExRefCell<T: ?Sized>(RefCell<T>);

/// `RefCell::new`: a cell that starts out holding `value`. Nothing is
/// claimed of the cell: what it holds changes under shared references.
#[verifier::external_body]
fn new_cell<T>(value: T) -> RefCell<T> {
    RefCell::new(value)
}

/// `Rc::clone`: another handle to the same cell. The two handles are equal:
/// they point to one allocation.
#[verifier::external_body]
fn share_cell<T>(cell: &Rc<RefCell<T>>) -> (shared: Rc<RefCell<T>>)
    ensures
        shared == *cell,
{
    Rc::clone(cell)
}

/// `RefCell::borrow_mut`, to put `value` into the cell. No borrow of the
/// cell outlives a call of these functions, so the cell is free to be
/// borrowed here.
#[verifier::external_body]
fn store<T>(cell: &Rc<RefCell<T>>, value: T) {
    *cell.borrow_mut() = value;
}

/// `RefCell::borrow`, to copy out what the cell holds. That is whatever was
/// stored last through any handle, so nothing is claimed of it.
#[verifier::external_body]
fn load<T: Copy>(cell: &Rc<RefCell<T>>) -> T {
    *cell.borrow()
}

/// A new pair of feedback nodes around one cell, which starts out holding
/// the payload's default. Both halves hold the same cell.
pub fn new_feedback_pair<T>() -> (pair: (FeedbackSource<T>, FeedbackSink<T>)) where T: Default
    ensures
        pair.0.cell() == pair.1.cell(),
{
    let value = Rc::new(new_cell(T::default()));
    (FeedbackSource { value: share_cell(&value) }, FeedbackSink { value })
}

/// The half of a feedback pair that takes the value in.
#[verifier::reject_recursive_types(T)]
pub struct FeedbackSource<T> {
    value: Rc<RefCell<T>>,
}

impl<T> FeedbackSource<T> {
    /// The cell that the source writes to.
    pub closed spec fn cell(&self) -> Rc<RefCell<T>> {
        self.value
    }
}

impl<T> FeedbackSink<T> {
    /// The cell that the sink reads from.
    pub closed spec fn cell(&self) -> Rc<RefCell<T>> {
        self.value
    }
}

/// The one consumer of a feedback source.
#[derive(Clone, Copy, PartialEq, Eq, Hash, Debug)]
pub struct FeedbackSourceConsumer;

/// A feedback source has no producer: no value of this type can be made.
#[derive(Clone, Copy, PartialEq, Eq, Hash, Debug)]
pub enum FeedbackSourceProducer {
    Never(Infallible),
}

impl<T> Node<T> for FeedbackSource<T> where T: Default {
    type Consumer = FeedbackSourceConsumer;

    type Producer = FeedbackSourceProducer;

    /// Puts `input` into the cell of the pair. The source itself stays as
    /// it is: it holds the same cell as before.
    fn write(&mut self, _consumer: Self::Consumer, input: T)
        ensures
            *final(self) == *old(self),
    {
        store(&self.value, input);
    }
}

/// The half of a feedback pair that hands the value out.
#[verifier::reject_recursive_types(T)]
pub struct FeedbackSink<T> {
    value: Rc<RefCell<T>>,
}

/// A feedback sink has no consumer: no value of this type can be made.
#[derive(Clone, Copy, PartialEq, Eq, Hash, Debug)]
pub enum FeedbackSinkConsumer {
    Never(Infallible),
}

/// The one producer of a feedback sink.
#[derive(Clone, Copy, PartialEq, Eq, Hash, Debug)]
pub struct FeedbackSinkProducer;

impl<T> Node<T> for FeedbackSink<T> where T: Default + Copy {
    type Consumer = FeedbackSinkConsumer;

    type Producer = FeedbackSinkProducer;

    /// Copies out what the cell of the pair holds.
    fn read(&self, _producer: Self::Producer) -> T {
        load(&self.value)
    }
}

} // verus!
