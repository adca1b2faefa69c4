use graphity::error::Error;
use graphity::graph::{AddEdgeError, Graph};
use graphity::node::{
    CommonConsumerIndex, CommonProducerIndex, ConsumerIndex, NodeClass, NodeIndex, ProducerIndex,
    Same,
};

#[derive(Copy, Clone, PartialEq, Eq, Hash, Debug)]
struct TestNode(i32);

impl NodeClass for TestNode {
    type Class = TestClass;

    fn class(&self) -> Self::Class {
        TestClass
    }
}

impl From<i32> for TestNode {
    fn from(n: i32) -> Self {
        Self(n)
    }
}

#[derive(Copy, Clone, PartialEq, Eq, Hash, Debug)]
struct TestNodeIndex {
    index: usize,
}

#[derive(Copy, Clone, PartialEq, Eq, Hash, Debug)]
struct TestClass;

#[derive(Copy, Clone, PartialEq, Eq, Hash, Debug)]
struct TestConsumer;

type TestConsumerIndex = CommonConsumerIndex<TestNodeIndex>;

#[derive(Copy, Clone, PartialEq, Eq, Hash, Debug)]
struct TestProducer;

type TestProducerIndex = CommonProducerIndex<TestNodeIndex>;

impl Same for TestNodeIndex {
    fn same(&self, other: &Self) -> bool {
        self == other
    }
}

impl Same for TestConsumer {
    fn same(&self, other: &Self) -> bool {
        self == other
    }
}

impl Same for TestProducer {
    fn same(&self, other: &Self) -> bool {
        self == other
    }
}

impl NodeIndex for TestNodeIndex {
    type Class = TestClass;
    type Consumer = TestConsumer;
    type Producer = TestProducer;

    fn new(_class: Self::Class, index: usize) -> Self {
        Self { index }
    }

    fn consumer(&self, consumer: TestConsumer) -> TestConsumerIndex {
        CommonConsumerIndex::new(*self, consumer)
    }

    fn producer(&self, producer: TestProducer) -> TestProducerIndex {
        CommonProducerIndex::new(*self, producer)
    }
}

type TestGraph = Graph<TestNode, TestNodeIndex>;

#[test]
fn initialize_node_index() {
    let _node_index = TestNodeIndex::new(TestClass, 0);
}

#[test]
fn get_consumer_index() {
    let node_index = TestNodeIndex::new(TestClass, 0);

    let _consumer_index = node_index.consumer(TestConsumer);
}

#[test]
fn get_consumer_index_node_index() {
    let node_index = TestNodeIndex::new(TestClass, 0);
    let consumer_index = node_index.consumer(TestConsumer);

    assert_eq!(consumer_index.node_index(), node_index)
}

#[test]
fn get_consumer_index_consumer() {
    let node_index = TestNodeIndex::new(TestClass, 0);
    let consumer_index = node_index.consumer(TestConsumer);

    assert_eq!(consumer_index.consumer(), TestConsumer)
}

#[test]
fn get_producer_index() {
    let node_index = TestNodeIndex::new(TestClass, 0);

    let _producer_index = node_index.producer(TestProducer);
}

#[test]
fn get_producer_index_node_index() {
    let node_index = TestNodeIndex::new(TestClass, 0);
    let producer_index = node_index.producer(TestProducer);

    assert_eq!(producer_index.node_index(), node_index)
}

#[test]
fn get_producer_index_producer() {
    let node_index = TestNodeIndex::new(TestClass, 0);
    let producer_index = node_index.producer(TestProducer);

    assert_eq!(producer_index.producer(), TestProducer)
}

#[test]
fn initialize_graph() {
    let _graph = TestGraph::new();
}

#[test]
fn add_node() {
    let mut graph = TestGraph::new();

    graph.add_node(10.into());
}

#[test]
fn graph_remove_node() {
    let mut graph = TestGraph::new();
    let index = graph.add_node(10.into());

    graph.remove_node(index);

    assert!(graph.node(&index).is_none());
}

#[test]
fn graph_get_node() {
    let mut graph = TestGraph::new();
    let index = graph.add_node(10.into());

    assert_eq!(*graph.node(&index).unwrap(), TestNode(10));
}

#[test]
fn return_none_on_get_nonexistent_node() {
    let graph = TestGraph::new();

    assert!(graph.node(&NodeIndex::new(TestClass, 100)).is_none());
}

#[test]
fn get_node_mut() {
    let mut graph = TestGraph::new();
    let index = graph.add_node(10.into());

    *graph.node_mut(&index).unwrap() = 20.into();
    assert_eq!(*graph.node(&index).unwrap(), 20.into());
}

#[test]
fn return_none_on_get_nonexistent_node_mut() {
    let mut graph = TestGraph::new();

    assert!(graph.node_mut(&NodeIndex::new(TestClass, 100)).is_none());
}

#[test]
fn add_edge() {
    let mut graph = TestGraph::new();
    let one = graph.add_node(1.into());
    let two = graph.add_node(2.into());

    assert!(!graph.has_edge(one.producer(TestProducer), two.consumer(TestConsumer)));

    graph.must_add_edge(one.producer(TestProducer), two.consumer(TestConsumer));

    assert!(graph.has_edge(one.producer(TestProducer), two.consumer(TestConsumer)));
}

#[test]
fn add_multiple_edges_with_single_source() {
    let mut graph = TestGraph::new();
    let one = graph.add_node(1.into());
    let two = graph.add_node(2.into());
    let three = graph.add_node(3.into());

    graph.must_add_edge(one.producer(TestProducer), two.consumer(TestConsumer));
    graph.must_add_edge(one.producer(TestProducer), three.consumer(TestConsumer));

    assert!(graph.has_edge(one.producer(TestProducer), two.consumer(TestConsumer)));
    assert!(graph.has_edge(one.producer(TestProducer), three.consumer(TestConsumer)));
}

#[test]
fn return_error_on_add_multiple_edges_with_single_destination() {
    let mut graph = TestGraph::new();
    let one = graph.add_node(1.into());
    let two = graph.add_node(2.into());
    let three = graph.add_node(3.into());

    graph.must_add_edge(one.producer(TestProducer), three.consumer(TestConsumer));
    assert!(graph
        .add_edge(two.producer(TestProducer), three.consumer(TestConsumer))
        .is_err());
}

#[test]
fn graph_remove_edge() {
    let mut graph = TestGraph::new();
    let one = graph.add_node(1.into());
    let two = graph.add_node(2.into());
    graph.must_add_edge(one.producer(TestProducer), two.consumer(TestConsumer));

    graph.remove_edge(one.producer(TestProducer), two.consumer(TestConsumer));

    assert!(!graph.has_edge(one.producer(TestProducer), two.consumer(TestConsumer)));
}

#[test]
fn remove_edges_on_source_node_removal() {
    let mut graph = TestGraph::new();
    let one = graph.add_node(1.into());
    let two = graph.add_node(2.into());
    graph.must_add_edge(one.producer(TestProducer), two.consumer(TestConsumer));

    graph.remove_node(one);

    assert!(!graph.has_edge(one.producer(TestProducer), two.consumer(TestConsumer)));
}

#[test]
fn remove_edges_on_destination_node_removal() {
    let mut graph = TestGraph::new();
    let one = graph.add_node(1.into());
    let two = graph.add_node(2.into());
    let three = graph.add_node(3.into());
    graph.must_add_edge(one.producer(TestProducer), two.consumer(TestConsumer));
    graph.must_add_edge(one.producer(TestProducer), three.consumer(TestConsumer));

    graph.remove_node(two);

    assert!(!graph.has_edge(one.producer(TestProducer), two.consumer(TestConsumer)));
    assert!(graph.has_edge(one.producer(TestProducer), three.consumer(TestConsumer)));
}

#[test]
fn add_edge_twice_leaves_one_edge() {
    let mut graph = TestGraph::new();
    let one = graph.add_node(1.into());
    let two = graph.add_node(2.into());
    let producer = one.producer(TestProducer);
    let consumer = two.consumer(TestConsumer);

    assert!(graph.add_edge(producer, consumer).is_ok());
    assert!(graph.has_edge(producer, consumer));
    assert_eq!(graph.edge_count(), 1);
    assert!(graph.add_edge(producer, consumer).is_ok());
    assert!(graph.has_edge(producer, consumer));
    assert_eq!(graph.edge_count(), 1);
}

#[test]
fn occupied_consumer_keeps_its_producer() {
    let mut graph = TestGraph::new();
    let one = graph.add_node(1.into());
    let two = graph.add_node(2.into());
    let three = graph.add_node(3.into());

    assert!(graph
        .add_edge(one.producer(TestProducer), three.consumer(TestConsumer))
        .is_ok());
    assert!(matches!(
        graph.add_edge(two.producer(TestProducer), three.consumer(TestConsumer)),
        Err(AddEdgeError::OccupiedConsumer)
    ));
    assert!(graph.has_edge(one.producer(TestProducer), three.consumer(TestConsumer)));
    assert!(!graph.has_edge(two.producer(TestProducer), three.consumer(TestConsumer)));
    assert_eq!(graph.edge_count(), 1);
    assert!(graph.is_occupied(&two.producer(TestProducer), &three.consumer(TestConsumer)));
    assert!(!graph.is_occupied(&one.producer(TestProducer), &three.consumer(TestConsumer)));
}

#[test]
fn sequence_numbers_are_never_used_again() {
    let mut graph = TestGraph::new();
    let one = graph.add_node(1.into());
    graph.remove_node(one);
    let two = graph.add_node(2.into());

    assert_eq!(one, TestNodeIndex::new(TestClass, 0));
    assert_eq!(two, TestNodeIndex::new(TestClass, 1));
    assert_ne!(one, two);
    assert!(graph.node(&one).is_none());
    assert_eq!(*graph.node(&two).unwrap(), TestNode(2));
}

#[test]
fn remove_edge_that_is_not_there_changes_nothing() {
    let mut graph = TestGraph::new();
    let one = graph.add_node(1.into());
    let two = graph.add_node(2.into());
    let three = graph.add_node(3.into());
    graph.must_add_edge(one.producer(TestProducer), two.consumer(TestConsumer));

    graph.remove_edge(one.producer(TestProducer), three.consumer(TestConsumer));

    assert!(graph.has_edge(one.producer(TestProducer), two.consumer(TestConsumer)));
    assert_eq!(graph.edge_count(), 1);
    assert_eq!(graph.node_count(), 3);
}

#[test]
fn remove_node_that_is_not_there_changes_nothing() {
    let mut graph = TestGraph::new();
    let one = graph.add_node(1.into());
    let two = graph.add_node(2.into());
    graph.must_add_edge(one.producer(TestProducer), two.consumer(TestConsumer));

    graph.remove_node(TestNodeIndex::new(TestClass, 100));

    assert_eq!(graph.node_count(), 2);
    assert!(graph.has_edge(one.producer(TestProducer), two.consumer(TestConsumer)));
}

#[test]
fn places_follow_the_order_of_adding() {
    let mut graph = TestGraph::new();
    let one = graph.add_node(1.into());
    let two = graph.add_node(2.into());
    let three = graph.add_node(3.into());

    assert_eq!(graph.position(&one), Some(0));
    assert_eq!(graph.position(&three), Some(2));
    assert_eq!(graph.index_at(1), two);
    assert_eq!(*graph.node_at(1), TestNode(2));
    *graph.node_at_mut(1) = TestNode(5);
    assert_eq!(*graph.node(&two).unwrap(), TestNode(5));

    graph.remove_node(one);
    assert_eq!(graph.position(&one), None);
    assert_eq!(graph.position(&two), Some(0));
    assert_eq!(graph.position(&three), Some(1));

    graph.must_add_edge(two.producer(TestProducer), three.consumer(TestConsumer));
    assert_eq!(
        graph.edge_at(0),
        (two.producer(TestProducer), three.consumer(TestConsumer))
    );
}

#[test]
fn add_edge_error_becomes_the_common_error() {
    let error: Error = AddEdgeError::OccupiedConsumer.into();
    assert!(matches!(
        error,
        Error::AddEdgeError(AddEdgeError::OccupiedConsumer)
    ));
}

#[test]
fn sequence_number_counts_up_with_every_node() {
    let mut graph = TestGraph::new();
    assert_eq!(graph.next_sequence_number(), 0);
    let one = graph.add_node(1.into());
    assert_eq!(graph.next_sequence_number(), 1);
    graph.remove_node(one);
    assert_eq!(graph.next_sequence_number(), 1);
    graph.add_node(2.into());
    assert_eq!(graph.next_sequence_number(), 2);
    assert_eq!(graph.node_count(), 1);
}
