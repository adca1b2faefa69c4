//! The nodes that the signal graph adds on its own, and their indices.

use core::hash::Hash;
use vstd::pervasive::unreached;
use vstd::prelude::*;
use vstd::std_specs::convert::FromSpecImpl;

use crate::feedback::{FeedbackSink, FeedbackSinkProducer, FeedbackSource, FeedbackSourceConsumer};
use crate::node::{CommonConsumerIndex, CommonProducerIndex, Node, NodeClass, NodeIndex, Same};

verus! {

/// A node that the signal graph adds on its own: one half of a feedback
/// pair.
#[verifier::reject_recursive_types(T)]
pub enum InternalNode<T> {
    FeedbackSource(FeedbackSource<T>),
    FeedbackSink(FeedbackSink<T>),
}

/// The classes of internal nodes.
#[derive(Clone, Copy, PartialEq, Eq, Hash, Debug)]
pub enum InternalClass {
    FeedbackSource,
    FeedbackSink,
}

impl Same for InternalClass {
    fn same(&self, other: &Self) -> (equal: bool) {
        match (self, other) {
            (InternalClass::FeedbackSource, InternalClass::FeedbackSource) => true,
            (InternalClass::FeedbackSink, InternalClass::FeedbackSink) => true,
            _ => false,
        }
    }
}

/// The consumers of internal nodes. Only a feedback source has one.
#[derive(Clone, Copy, PartialEq, Eq, Hash, Debug)]
pub enum InternalConsumer {
    FeedbackSource(FeedbackSourceConsumer),
}

impl Same for InternalConsumer {
    fn same(&self, other: &Self) -> (equal: bool) {
        true
    }
}

/// The producers of internal nodes. Only a feedback sink has one.
#[derive(Clone, Copy, PartialEq, Eq, Hash, Debug)]
pub enum InternalProducer {
    FeedbackSink(FeedbackSinkProducer),
}

impl Same for InternalProducer {
    fn same(&self, other: &Self) -> (equal: bool) {
        true
    }
}

impl<T> InternalNode<T> {
    /// The class of the node.
    pub open spec fn class_of(&self) -> InternalClass {
        match self {
            InternalNode::FeedbackSource(_) => InternalClass::FeedbackSource,
            InternalNode::FeedbackSink(_) => InternalClass::FeedbackSink,
        }
    }
}

impl<T> NodeClass for InternalNode<T> {
    type Class = InternalClass;

    fn class(&self) -> (class: InternalClass)
        ensures
            class == self.class_of(),
    {
        match self {
            Self::FeedbackSource(_) => InternalClass::FeedbackSource,
            Self::FeedbackSink(_) => InternalClass::FeedbackSink,
        }
    }
}

/// Reads from a node, and tells that the value is one that the node's own
/// `read` returned for the producer.
fn read_from<M: Node<T>, T: Default>(node: &M, producer: M::Producer) -> (value: T)
    ensures
        call_ensures(M::read, (node, producer), value),
{
    node.read(producer)
}

/// Writes into a node, and tells that the node's own `write` took the input
/// for the consumer and made of the node what it is afterwards.
fn write_into<M: Node<T>, T: Default>(node: &mut M, consumer: M::Consumer, input: T)
    ensures
        exists|call: &mut M|
            mut_ref_current(call) == *old(node) && mut_ref_future(call) == *final(node)
                && #[trigger] call_ensures(M::write, (call, consumer, input), ()),
{
    node.write(consumer, input)
}

impl<T> InternalNode<T> where T: Default + Copy {
    /// The node hands out `value` at the given producer: it is a feedback
    /// sink, and `value` is what the sink's `read` returned.
    pub open spec fn hands_out(&self, producer: InternalProducer, value: T) -> bool {
        &&& self matches InternalNode::FeedbackSink(sink)
        &&& producer matches InternalProducer::FeedbackSink(selector)
        &&& call_ensures(FeedbackSink::<T>::read, (&sink, selector), value)
    }

    /// An internal node has no work of its own to do.
    pub fn tick(&mut self)
        ensures
            *final(self) == *old(self),
    {
    }

    /// Reads what the feedback pair holds: the value is what the `read` of
    /// the feedback sink inside returns. Only a feedback sink has a
    /// producer to read from.
    pub fn read(&self, producer: InternalProducer) -> (value: T)
        requires
            self is FeedbackSink,
        ensures
            self.hands_out(producer, value),
    {
        match self {
            Self::FeedbackSink(feedback_sink) => match producer {
                InternalProducer::FeedbackSink(producer) => read_from(feedback_sink, producer),
            },
            Self::FeedbackSource(_) => unreached(),
        }
    }

    /// Hands `input` to the feedback pair, through the `write` of the
    /// feedback source inside. The node stays as it is: it holds the same
    /// cell as before. Only a feedback source has a consumer to write to.
    pub fn write(&mut self, consumer: InternalConsumer, input: T)
        requires
            *old(self) is FeedbackSource,
        ensures
            *final(self) == *old(self),
            exists|call: &mut FeedbackSource<T>|
                mut_ref_current(call) == old(self)->FeedbackSource_0 && mut_ref_future(call)
                    == final(self)->FeedbackSource_0 && #[trigger] call_ensures(
                    FeedbackSource::<T>::write,
                    (call, consumer->FeedbackSource_0, input),
                    (),
                ),
    {
        match self {
            Self::FeedbackSource(feedback_source) => match consumer {
                InternalConsumer::FeedbackSource(consumer) => write_into(
                    feedback_source,
                    consumer,
                    input,
                ),
            },
            Self::FeedbackSink(_) => unreached(),
        }
    }
}

/// The index of an internal node.
#[derive(Copy, Clone, PartialEq, Eq, Hash, Debug)]
pub struct InternalNodeIndex {
    pub class: InternalClass,
    pub index: usize,
}

impl Same for InternalNodeIndex {
    fn same(&self, other: &Self) -> (equal: bool) {
        self.class.same(&other.class) && self.index == other.index
    }
}

/// The address of the consumer of an internal node.
pub type InternalConsumerIndex = CommonConsumerIndex<InternalNodeIndex>;

/// The address of the producer of an internal node.
pub type InternalProducerIndex = CommonProducerIndex<InternalNodeIndex>;

impl NodeIndex for InternalNodeIndex {
    type Class = InternalClass;

    type Consumer = InternalConsumer;

    type Producer = InternalProducer;

    /// Only a feedback source has a consumer.
    open spec fn offers_consumer(&self, consumer: InternalConsumer) -> bool {
        self.class == InternalClass::FeedbackSource
    }

    /// Only a feedback sink has a producer.
    open spec fn offers_producer(&self, producer: InternalProducer) -> bool {
        self.class == InternalClass::FeedbackSink
    }

    fn new(class: InternalClass, index: usize) -> (node_index: Self)
        ensures
            node_index.class == class,
            node_index.index == index,
    {
        Self { class, index }
    }

    fn consumer(&self, consumer: InternalConsumer) -> (address: InternalConsumerIndex) {
        match self.class {
            InternalClass::FeedbackSource => match consumer {
                InternalConsumer::FeedbackSource(_) => CommonConsumerIndex {
                    node_index: *self,
                    consumer,
                },
            },
            InternalClass::FeedbackSink => unreached(),
        }
    }

    fn producer(&self, producer: InternalProducer) -> (address: InternalProducerIndex) {
        match self.class {
            InternalClass::FeedbackSink => match producer {
                InternalProducer::FeedbackSink(_) => CommonProducerIndex {
                    node_index: *self,
                    producer,
                },
            },
            InternalClass::FeedbackSource => unreached(),
        }
    }
}

impl<T> From<FeedbackSource<T>> for InternalNode<T> {
    fn from(feedback_source: FeedbackSource<T>) -> (node: Self) {
        InternalNode::FeedbackSource(feedback_source)
    }
}

impl<T> FromSpecImpl<FeedbackSource<T>> for InternalNode<T> {
    open spec fn obeys_from_spec() -> bool {
        true
    }

    open spec fn from_spec(feedback_source: FeedbackSource<T>) -> Self {
        InternalNode::FeedbackSource(feedback_source)
    }
}

impl<T> From<FeedbackSink<T>> for InternalNode<T> {
    fn from(feedback_sink: FeedbackSink<T>) -> (node: Self) {
        InternalNode::FeedbackSink(feedback_sink)
    }
}

impl<T> FromSpecImpl<FeedbackSink<T>> for InternalNode<T> {
    open spec fn obeys_from_spec() -> bool {
        true
    }

    open spec fn from_spec(feedback_sink: FeedbackSink<T>) -> Self {
        InternalNode::FeedbackSink(feedback_sink)
    }
}

impl From<FeedbackSourceConsumer> for InternalConsumer {
    fn from(feedback_source: FeedbackSourceConsumer) -> (consumer: Self) {
        InternalConsumer::FeedbackSource(feedback_source)
    }
}

impl FromSpecImpl<FeedbackSourceConsumer> for InternalConsumer {
    open spec fn obeys_from_spec() -> bool {
        true
    }

    open spec fn from_spec(feedback_source: FeedbackSourceConsumer) -> Self {
        InternalConsumer::FeedbackSource(feedback_source)
    }
}

impl From<FeedbackSinkProducer> for InternalProducer {
    fn from(feedback_sink: FeedbackSinkProducer) -> (producer: Self) {
        InternalProducer::FeedbackSink(feedback_sink)
    }
}

impl FromSpecImpl<FeedbackSinkProducer> for InternalProducer {
    open spec fn obeys_from_spec() -> bool {
        true
    }

    open spec fn from_spec(feedback_sink: FeedbackSinkProducer) -> Self {
        InternalProducer::FeedbackSink(feedback_sink)
    }
}

} // verus!
