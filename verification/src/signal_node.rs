//! What a signal graph stores: registered nodes and internal nodes side by
//! side, with the indices and the port selectors of both.

use core::hash::Hash;
use vstd::pervasive::unreached;
use vstd::prelude::*;
use vstd::std_specs::convert::FromSpecImpl;

use crate::feedback::{FeedbackSink, FeedbackSinkProducer, FeedbackSource, FeedbackSourceConsumer};
use crate::internal::{
    InternalClass, InternalConsumer, InternalNode, InternalNodeIndex, InternalProducer,
};
use crate::node::{
    CommonConsumerIndex, CommonProducerIndex, Node, NodeClass, NodeIndex, NodeWrapper, Same,
};

verus! {

/// A node of a signal graph: one that the user registered, or one that the
/// graph added on its own.
#[verifier::reject_recursive_types(N)]
pub enum SignalNode<N> where N: NodeWrapper {
    Registered(N),
    Internal(InternalNode<N::Payload>),
}

/// The class of a node of a signal graph.
#[derive(Clone, Copy, PartialEq, Eq, Hash)]
pub enum SignalNodeClass<NC> {
    Registered(NC),
    Internal(InternalClass),
}

/// Which side a node, an index or a selector belongs to, and for the
/// internal side the class.
pub enum Side {
    Registered,
    Internal(InternalClass),
}

/// The given node as a registered node of a signal graph.
pub open spec fn registered<N: NodeWrapper>(node: N) -> SignalNode<N> {
    SignalNode::Registered(node)
}

impl<N> SignalNode<N> where N: NodeWrapper {
    /// The side of the node.
    pub open spec fn side(&self) -> Side {
        match self {
            SignalNode::Registered(_) => Side::Registered,
            SignalNode::Internal(node) => Side::Internal(node.class_of()),
        }
    }

    /// Whether the node has the given producer: a registered node takes a
    /// registered selector, a feedback sink takes the internal one.
    pub open spec fn offers_producer(&self, producer: SignalProducer<N::Producer>) -> bool {
        match (self, producer) {
            (SignalNode::Registered(_), SignalProducer::Registered(_)) => true,
            (SignalNode::Internal(node), SignalProducer::Internal(_)) => node is FeedbackSink,
            _ => false,
        }
    }

    /// Whether the node has the given consumer: a registered node takes a
    /// registered selector, a feedback source takes the internal one.
    pub open spec fn offers_consumer(&self, consumer: SignalConsumer<N::Consumer>) -> bool {
        match (self, consumer) {
            (SignalNode::Registered(_), SignalConsumer::Registered(_)) => true,
            (SignalNode::Internal(node), SignalConsumer::Internal(_)) => node is FeedbackSource,
            _ => false,
        }
    }

    /// The node hands out `value` at the given producer: `value` is what
    /// the `read` of the node inside returned for the selector inside.
    pub open spec fn hands_out(
        &self,
        producer: SignalProducer<N::Producer>,
        value: N::Payload,
    ) -> bool {
        match (self, producer) {
            (SignalNode::Registered(node), SignalProducer::Registered(selector)) => call_ensures(
                N::read,
                (&node, selector),
                value,
            ),
            (SignalNode::Internal(node), SignalProducer::Internal(selector)) => node.hands_out(
                selector,
                value,
            ),
            _ => false,
        }
    }

    /// The registered node inside.
    pub fn must_registered(&self) -> (node: &N)
        requires
            self is Registered,
        ensures
            *node == self->Registered_0,
    {
        match self {
            Self::Registered(node) => node,
            _ => unreached(),
        }
    }

    /// The registered node inside, to be changed.
    pub fn must_registered_mut(&mut self) -> (node: &mut N)
        requires
            *old(self) is Registered,
        ensures
            *node == old(self)->Registered_0,
            *final(self) == registered(*final(node)),
    {
        match self {
            Self::Registered(node) => node,
            _ => unreached(),
        }
    }

    /// Lets the node work on its inputs. A registered node becomes what its
    /// own `tick` makes of it; an internal node stays as it is. Either way
    /// the node stays on its side.
    pub fn tick(&mut self)
        ensures
            final(self).side() == old(self).side(),
            *old(self) is Internal ==> *final(self) == *old(self),
            *old(self) is Registered ==> exists|call: &mut N|
                mut_ref_current(call) == old(self)->Registered_0 && mut_ref_future(call)
                    == final(self)->Registered_0 && #[trigger] call_ensures(N::tick, (call,), ()),
    {
        match self {
            Self::Registered(node) => node.tick(),
            Self::Internal(node) => node.tick(),
        }
    }

    /// Reads from the given producer of the node: the value is what the
    /// `read` of the node inside returns for the selector inside.
    pub fn read(&self, producer: SignalProducer<N::Producer>) -> (value: N::Payload)
        requires
            self.offers_producer(producer),
        ensures
            self.hands_out(producer, value),
    {
        match self {
            Self::Registered(node) => match producer {
                SignalProducer::Registered(producer) => node.read(producer),
                _ => unreached(),
            },
            Self::Internal(node) => match producer {
                SignalProducer::Internal(producer) => node.read(producer),
                _ => unreached(),
            },
        }
    }

    /// Writes `input` into the given consumer of the node. A registered
    /// node becomes what its own `write` makes of it for the selector
    /// inside; a feedback source takes the input through its own `write` and
    /// stays as it is. Either way the node stays on its side.
    pub fn write(&mut self, consumer: SignalConsumer<N::Consumer>, input: N::Payload)
        requires
            old(self).offers_consumer(consumer),
        ensures
            final(self).side() == old(self).side(),
            *old(self) is Registered ==> exists|call: &mut N|
                mut_ref_current(call) == old(self)->Registered_0 && mut_ref_future(call)
                    == final(self)->Registered_0 && #[trigger] call_ensures(
                    N::write,
                    (call, consumer->Registered_0, input),
                    (),
                ),
            *old(self) is Internal ==> *final(self) == *old(self) && exists|
                call: &mut FeedbackSource<N::Payload>,
            |
                mut_ref_current(call) == old(self)->Internal_0->FeedbackSource_0
                    && mut_ref_future(call) == final(self)->Internal_0->FeedbackSource_0
                    && #[trigger] call_ensures(
                    FeedbackSource::<N::Payload>::write,
                    (call, consumer->Internal_0->FeedbackSource_0, input),
                    (),
                ),
    {
        match self {
            Self::Registered(node) => match consumer {
                SignalConsumer::Registered(consumer) => node.write(consumer, input),
                _ => unreached(),
            },
            Self::Internal(node) => match consumer {
                SignalConsumer::Internal(consumer) => node.write(consumer, input),
                _ => unreached(),
            },
        }
    }
}

impl<N> NodeClass for SignalNode<N> where N: NodeWrapper {
    type Class = SignalNodeClass<N::Class>;

    fn class(&self) -> (class: Self::Class)
        ensures
            match self {
                SignalNode::Registered(node) => class matches SignalNodeClass::Registered(inner)
                    && call_ensures(N::class, (node,), inner),
                SignalNode::Internal(node) => class == SignalNodeClass::<N::Class>::Internal(
                    node.class_of(),
                ),
            },
    {
        match self {
            Self::Registered(node) => SignalNodeClass::Registered(node.class()),
            Self::Internal(node) => SignalNodeClass::Internal(node.class()),
        }
    }
}

/// The index of a node of a signal graph.
#[derive(Clone, Copy, PartialEq, Eq, Hash)]
pub enum SignalNodeIndex<NI> {
    Registered(NI),
    Internal(InternalNodeIndex),
}

impl<NI: Same> Same for SignalNodeIndex<NI> {
    fn same(&self, other: &Self) -> (equal: bool) {
        match self {
            SignalNodeIndex::Registered(left) => match other {
                SignalNodeIndex::Registered(right) => left.same(right),
                SignalNodeIndex::Internal(_) => false,
            },
            SignalNodeIndex::Internal(left) => match other {
                SignalNodeIndex::Registered(_) => false,
                SignalNodeIndex::Internal(right) => left.same(right),
            },
        }
    }
}

impl<NI> SignalNodeIndex<NI> {
    /// The side of the node behind the index.
    pub open spec fn side(&self) -> Side {
        match self {
            SignalNodeIndex::Registered(_) => Side::Registered,
            SignalNodeIndex::Internal(index) => Side::Internal(index.class),
        }
    }

    /// The index of the registered node inside.
    pub fn must_registered(&self) -> (node_index: &NI)
        requires
            self is Registered,
        ensures
            *node_index == self->Registered_0,
    {
        match self {
            Self::Registered(node_index) => node_index,
            _ => unreached(),
        }
    }
}

impl<NI> NodeIndex for SignalNodeIndex<NI> where NI: NodeIndex {
    type Class = SignalNodeClass<NI::Class>;

    type Consumer = SignalConsumer<NI::Consumer>;

    type Producer = SignalProducer<NI::Producer>;

    /// The selector has to be of the side of the index, and on the internal
    /// side the node has to be a feedback source.
    open spec fn offers_consumer(&self, consumer: SignalConsumer<NI::Consumer>) -> bool {
        match (self, consumer) {
            (SignalNodeIndex::Registered(_), SignalConsumer::Registered(_)) => true,
            (SignalNodeIndex::Internal(index), SignalConsumer::Internal(_)) => index.class
                == InternalClass::FeedbackSource,
            _ => false,
        }
    }

    /// The selector has to be of the side of the index, and on the internal
    /// side the node has to be a feedback sink.
    open spec fn offers_producer(&self, producer: SignalProducer<NI::Producer>) -> bool {
        match (self, producer) {
            (SignalNodeIndex::Registered(_), SignalProducer::Registered(_)) => true,
            (SignalNodeIndex::Internal(index), SignalProducer::Internal(_)) => index.class
                == InternalClass::FeedbackSink,
            _ => false,
        }
    }

    fn new(class: SignalNodeClass<NI::Class>, index: usize) -> (node_index: Self)
        ensures
            match class {
                SignalNodeClass::Registered(inner) => node_index matches SignalNodeIndex::Registered(
                    made,
                ) && call_ensures(NI::new, (inner, index), made),
                SignalNodeClass::Internal(inner) => node_index == SignalNodeIndex::<
                    NI,
                >::Internal(InternalNodeIndex { class: inner, index }),
            },
    {
        match class {
            SignalNodeClass::Registered(class) => Self::Registered(NI::new(class, index)),
            SignalNodeClass::Internal(class) => Self::Internal(InternalNodeIndex::new(class, index)),
        }
    }

    fn consumer(&self, consumer: SignalConsumer<NI::Consumer>) -> (address: CommonConsumerIndex<
        Self,
    >) {
        match self {
            SignalNodeIndex::Registered(_) => match consumer {
                SignalConsumer::Registered(_) => CommonConsumerIndex { node_index: *self, consumer },
                SignalConsumer::Internal(_) => unreached(),
            },
            SignalNodeIndex::Internal(_) => match consumer {
                SignalConsumer::Internal(_) => CommonConsumerIndex { node_index: *self, consumer },
                SignalConsumer::Registered(_) => unreached(),
            },
        }
    }

    fn producer(&self, producer: SignalProducer<NI::Producer>) -> (address: CommonProducerIndex<
        Self,
    >) {
        match self {
            SignalNodeIndex::Registered(_) => match producer {
                SignalProducer::Registered(_) => CommonProducerIndex { node_index: *self, producer },
                SignalProducer::Internal(_) => unreached(),
            },
            SignalNodeIndex::Internal(_) => match producer {
                SignalProducer::Internal(_) => CommonProducerIndex { node_index: *self, producer },
                SignalProducer::Registered(_) => unreached(),
            },
        }
    }
}

/// Selects a consumer of a node of a signal graph.
#[derive(Clone, Copy, PartialEq, Eq, Hash, Debug)]
pub enum SignalConsumer<C> where C: Copy + Hash {
    Registered(C),
    Internal(InternalConsumer),
}

impl<C: Copy + Hash + Same> Same for SignalConsumer<C> {
    fn same(&self, other: &Self) -> (equal: bool) {
        match self {
            SignalConsumer::Registered(left) => match other {
                SignalConsumer::Registered(right) => left.same(right),
                SignalConsumer::Internal(_) => false,
            },
            SignalConsumer::Internal(left) => match other {
                SignalConsumer::Registered(_) => false,
                SignalConsumer::Internal(right) => left.same(right),
            },
        }
    }
}

/// Selects a producer of a node of a signal graph.
#[derive(Clone, Copy, PartialEq, Eq, Hash, Debug)]
pub enum SignalProducer<P> where P: Copy + Hash {
    Registered(P),
    Internal(InternalProducer),
}

impl<P: Copy + Hash + Same> Same for SignalProducer<P> {
    fn same(&self, other: &Self) -> (equal: bool) {
        match self {
            SignalProducer::Registered(left) => match other {
                SignalProducer::Registered(right) => left.same(right),
                SignalProducer::Internal(_) => false,
            },
            SignalProducer::Internal(left) => match other {
                SignalProducer::Registered(_) => false,
                SignalProducer::Internal(right) => left.same(right),
            },
        }
    }
}

impl<N> From<FeedbackSource<N::Payload>> for SignalNode<N> where N: NodeWrapper {
    fn from(feedback_source: FeedbackSource<N::Payload>) -> (node: Self) {
        Self::Internal(InternalNode::FeedbackSource(feedback_source))
    }
}

impl<N> FromSpecImpl<FeedbackSource<N::Payload>> for SignalNode<N> where N: NodeWrapper {
    open spec fn obeys_from_spec() -> bool {
        true
    }

    open spec fn from_spec(feedback_source: FeedbackSource<N::Payload>) -> Self {
        SignalNode::Internal(InternalNode::FeedbackSource(feedback_source))
    }
}

impl<N> From<FeedbackSink<N::Payload>> for SignalNode<N> where N: NodeWrapper {
    fn from(feedback_sink: FeedbackSink<N::Payload>) -> (node: Self) {
        Self::Internal(InternalNode::FeedbackSink(feedback_sink))
    }
}

impl<N> FromSpecImpl<FeedbackSink<N::Payload>> for SignalNode<N> where N: NodeWrapper {
    open spec fn obeys_from_spec() -> bool {
        true
    }

    open spec fn from_spec(feedback_sink: FeedbackSink<N::Payload>) -> Self {
        SignalNode::Internal(InternalNode::FeedbackSink(feedback_sink))
    }
}

impl<C> From<FeedbackSourceConsumer> for SignalConsumer<C> where C: Hash + Copy {
    fn from(feedback_source: FeedbackSourceConsumer) -> (consumer: Self) {
        Self::Internal(InternalConsumer::FeedbackSource(feedback_source))
    }
}

impl<C> FromSpecImpl<FeedbackSourceConsumer> for SignalConsumer<C> where C: Hash + Copy {
    open spec fn obeys_from_spec() -> bool {
        true
    }

    open spec fn from_spec(feedback_source: FeedbackSourceConsumer) -> Self {
        SignalConsumer::Internal(InternalConsumer::FeedbackSource(feedback_source))
    }
}

impl<P> From<FeedbackSinkProducer> for SignalProducer<P> where P: Hash + Copy {
    fn from(feedback_sink: FeedbackSinkProducer) -> (producer: Self) {
        Self::Internal(InternalProducer::FeedbackSink(feedback_sink))
    }
}

impl<P> FromSpecImpl<FeedbackSinkProducer> for SignalProducer<P> where P: Hash + Copy {
    open spec fn obeys_from_spec() -> bool {
        true
    }

    open spec fn from_spec(feedback_sink: FeedbackSinkProducer) -> Self {
        SignalProducer::Internal(InternalProducer::FeedbackSink(feedback_sink))
    }
}

} // verus!
