//! The traits of nodes, of their ports, and of the indices that address them.

use core::hash::Hash;
use vstd::prelude::*;

verus! {

/// Marks the wrapper that stands for every node type registered with a
/// signal graph.
pub trait ExternalNodeWrapper<T: Default + Copy>: NodeWrapper<Payload = T> {

}

/// Marks the consumer selector that stands for the consumers of every
/// registered node type.
pub trait ExternalConsumer: Copy + Hash {

}

/// Marks the producer selector that stands for the producers of every
/// registered node type.
pub trait ExternalProducer: Copy + Hash {

}

/// A value that can tell whether another value of its type is the same.
///
/// The graph finds its nodes and edges by such comparisons. For a type that
/// compares with `==` as it should, `same` is `==`.
pub trait Same: Sized {
    /// Whether `other` is the same value as this one.
    fn same(&self, other: &Self) -> (equal: bool)
        ensures
            equal == (*self == *other),
    ;
}

/// A node of the signal graph, as its author writes it.
///
/// `Consumer` selects one of the node's input pins, `Producer` one of its
/// output pins. A type without values stands for "no such pin", a unit type
/// for a single pin, an enum for named pins.
pub trait Node<T: Default>: Sized {
    /// Selects one of the node's input pins.
    type Consumer: Copy + Hash;

    /// Selects one of the node's output pins.
    type Producer: Copy + Hash;

    /// All inputs have been written: the node may work on them. Does nothing
    /// unless the node says otherwise.
    fn tick(&mut self)
        default_ensures
            *final(self) == *old(self),
    {
    }

    /// Reads the value that stands at the given producer. The payload's
    /// default unless the node says otherwise.
    fn read(&self, producer: Self::Producer) -> (value: T)
        default_ensures
            call_ensures(T::default, (), value),
    {
        T::default()
    }

    /// Writes `input` into the given consumer. Does nothing unless the node
    /// says otherwise.
    fn write(&mut self, consumer: Self::Consumer, input: T)
        default_ensures
            *final(self) == *old(self),
    {
    }
}

/// A value that knows which class of node it is.
pub trait NodeClass {
    /// The tag that tells the classes of nodes apart.
    type Class: Hash + Copy + Eq;

    /// The class of this node. It stays the same for as long as the node
    /// lives.
    fn class(&self) -> Self::Class;
}

/// One type that stands for every node registered with a graph, and passes
/// each call on to the node behind it.
pub trait NodeWrapper: NodeClass + Sized {
    /// What flows along the edges.
    type Payload: Copy + Default;

    /// Selects a consumer of one of the wrapped nodes.
    type Consumer: Copy + Hash;

    /// Selects a producer of one of the wrapped nodes.
    type Producer: Copy + Hash;

    /// Lets the wrapped node work on its inputs. Does nothing unless the
    /// wrapper says otherwise.
    fn tick(&mut self)
        default_ensures
            *final(self) == *old(self),
    {
    }

    /// Reads from the given producer of the wrapped node. The payload's
    /// default unless the wrapper says otherwise.
    fn read(&self, producer: Self::Producer) -> (value: Self::Payload)
        default_ensures
            call_ensures(Self::Payload::default, (), value),
    {
        Self::Payload::default()
    }

    /// Writes into the given consumer of the wrapped node. Does nothing
    /// unless the wrapper says otherwise.
    fn write(&mut self, consumer: Self::Consumer, input: Self::Payload)
        default_ensures
            *final(self) == *old(self),
    {
    }
}

/// The address of a node in a graph: its class and its sequence number.
///
/// From it come the addresses of the node's consumers and producers, which
/// name the ends of an edge.
pub trait NodeIndex: Copy + Hash + Eq + Same {
    /// The class of the node behind the index.
    type Class: Copy + Hash + Eq;

    /// Selects a consumer of a node.
    type Consumer: Copy + Hash + Eq + Same;

    /// Selects a producer of a node.
    type Producer: Copy + Hash + Eq + Same;

    /// Whether the class behind this index has the given consumer. An index
    /// type that does not say accepts every consumer.
    open spec fn offers_consumer(&self, consumer: Self::Consumer) -> bool {
        true
    }

    /// Whether the class behind this index has the given producer. An index
    /// type that does not say accepts every producer.
    open spec fn offers_producer(&self, producer: Self::Producer) -> bool {
        true
    }

    /// The index of the node of the given class with the given sequence
    /// number.
    fn new(class: Self::Class, index: usize) -> Self;

    /// The address of the given consumer of this node.
    fn consumer(&self, consumer: Self::Consumer) -> (address: CommonConsumerIndex<Self>)
        requires
            self.offers_consumer(consumer),
        ensures
            address.node_index == *self,
            address.consumer == consumer,
    ;

    /// The address of the given producer of this node.
    fn producer(&self, producer: Self::Producer) -> (address: CommonProducerIndex<Self>)
        requires
            self.offers_producer(producer),
        ensures
            address.node_index == *self,
            address.producer == producer,
    ;
}

/// The address of one consumer of one node.
pub trait ConsumerIndex: Copy + Hash + Eq {
    /// The index of the node that the consumer belongs to.
    type NodeIndex: NodeIndex;

    /// The selector of the consumer.
    type Consumer: Copy + Hash + Eq;

    /// The address of `consumer` on the node at `node_index`.
    fn new(node_index: Self::NodeIndex, consumer: Self::Consumer) -> Self;

    /// The node that the consumer belongs to.
    fn node_index(&self) -> Self::NodeIndex;

    /// The selector of the consumer.
    fn consumer(&self) -> Self::Consumer;
}

/// The address of one producer of one node.
pub trait ProducerIndex: Copy + Hash + Eq {
    /// The index of the node that the producer belongs to.
    type NodeIndex: NodeIndex;

    /// The selector of the producer.
    type Producer: Copy + Hash + Eq;

    /// The address of `producer` on the node at `node_index`.
    fn new(node_index: Self::NodeIndex, producer: Self::Producer) -> Self;

    /// The node that the producer belongs to.
    fn node_index(&self) -> Self::NodeIndex;

    /// The selector of the producer.
    fn producer(&self) -> Self::Producer;
}

/// A consumer address made of the node's index and the consumer's selector.
#[derive(Copy, Clone, PartialEq, Eq, Hash, Debug)]
pub struct CommonConsumerIndex<NI> where NI: NodeIndex {
    pub node_index: NI,
    pub consumer: NI::Consumer,
}

impl<NI> ConsumerIndex for CommonConsumerIndex<NI> where NI: NodeIndex {
    type NodeIndex = NI;

    type Consumer = NI::Consumer;

    fn new(node_index: NI, consumer: NI::Consumer) -> (address: Self)
        ensures
            address.node_index == node_index,
            address.consumer == consumer,
    {
        Self { node_index, consumer }
    }

    fn node_index(&self) -> (node_index: NI)
        ensures
            node_index == self.node_index,
    {
        self.node_index
    }

    fn consumer(&self) -> (consumer: NI::Consumer)
        ensures
            consumer == self.consumer,
    {
        self.consumer
    }
}

/// A producer address made of the node's index and the producer's selector.
#[derive(Copy, Clone, PartialEq, Eq, Hash, Debug)]
pub struct CommonProducerIndex<NI> where NI: NodeIndex {
    pub node_index: NI,
    pub producer: NI::Producer,
}

impl<NI> ProducerIndex for CommonProducerIndex<NI> where NI: NodeIndex {
    type NodeIndex = NI;

    type Producer = NI::Producer;

    fn new(node_index: NI, producer: NI::Producer) -> (address: Self)
        ensures
            address.node_index == node_index,
            address.producer == producer,
    {
        Self { node_index, producer }
    }

    fn node_index(&self) -> (node_index: NI)
        ensures
            node_index == self.node_index,
    {
        self.node_index
    }

    fn producer(&self) -> (producer: NI::Producer)
        ensures
            producer == self.producer,
    {
        self.producer
    }
}

impl<NI> Same for CommonConsumerIndex<NI> where NI: NodeIndex {
    fn same(&self, other: &Self) -> (equal: bool) {
        self.node_index.same(&other.node_index) && self.consumer.same(&other.consumer)
    }
}

impl<NI> Same for CommonProducerIndex<NI> where NI: NodeIndex {
    fn same(&self, other: &Self) -> (equal: bool) {
        self.node_index.same(&other.node_index) && self.producer.same(&other.producer)
    }
}

} // verus!
