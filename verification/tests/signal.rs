use graphity::feedback::{new_feedback_pair, FeedbackSinkProducer, FeedbackSourceConsumer};
use graphity::node::{
    CommonConsumerIndex, CommonProducerIndex, ConsumerIndex, ExternalConsumer,
    ExternalNodeWrapper, ExternalProducer, Node, NodeClass, NodeIndex, NodeWrapper,
    ProducerIndex, Same,
};
use graphity::nodes::{
    Generator, GeneratorProducer, Recorder, RecorderConsumer, RecorderProducer, Sum, SumConsumer,
    SumProducer,
};
use graphity::internal::{InternalClass, InternalNodeIndex};
use graphity::signal::{lift_consumer, lift_producer, SignalGraph};
use graphity::signal_node::{
    SignalConsumer, SignalNode, SignalNodeClass, SignalNodeIndex, SignalProducer,
};

type Payload = i32;

impl From<Generator> for TestNode {
    fn from(generator: Generator) -> Self {
        TestNode::Generator(generator)
    }
}

impl From<GeneratorProducer> for TestProducer {
    fn from(generator: GeneratorProducer) -> Self {
        TestProducer::Generator(generator)
    }
}

impl From<Sum> for TestNode {
    fn from(sum: Sum) -> Self {
        TestNode::Sum(sum)
    }
}

impl From<SumConsumer> for TestConsumer {
    fn from(sum: SumConsumer) -> Self {
        TestConsumer::Sum(sum)
    }
}

impl From<SumProducer> for TestProducer {
    fn from(sum: SumProducer) -> Self {
        TestProducer::Sum(sum)
    }
}

impl From<Recorder> for TestNode {
    fn from(recorder: Recorder) -> Self {
        TestNode::Recorder(recorder)
    }
}

impl From<RecorderConsumer> for TestConsumer {
    fn from(recorder: RecorderConsumer) -> Self {
        TestConsumer::Recorder(recorder)
    }
}

impl From<RecorderProducer> for TestProducer {
    fn from(recorder: RecorderProducer) -> Self {
        TestProducer::Recorder(recorder)
    }
}

enum TestNode {
    Generator(Generator),
    Sum(Sum),
    Recorder(Recorder),
}

#[derive(PartialEq, Eq, Copy, Clone, Hash, Debug)]
enum TestNodeClass {
    Generator,
    Sum,
    Recorder,
}

impl NodeClass for TestNode {
    type Class = TestNodeClass;

    fn class(&self) -> Self::Class {
        match self {
            Self::Generator(_) => TestNodeClass::Generator,
            Self::Sum(_) => TestNodeClass::Sum,
            Self::Recorder(_) => TestNodeClass::Recorder,
        }
    }
}

impl NodeWrapper for TestNode {
    type Payload = Payload;
    type Consumer = TestConsumer;
    type Producer = TestProducer;

    fn tick(&mut self) {
        match self {
            Self::Generator(generator) => generator.tick(),
            Self::Sum(sum) => sum.tick(),
            Self::Recorder(recorder) => recorder.tick(),
        }
    }

    fn read(&self, producer: TestProducer) -> Payload {
        match self {
            Self::Generator(generator) => match producer {
                TestProducer::Generator(producer) => generator.read(producer),
                _ => panic!("Node does not offer such producer"),
            },
            Self::Sum(sum) => match producer {
                TestProducer::Sum(producer) => sum.read(producer),
                _ => panic!("Node does not offer such producer"),
            },
            Self::Recorder(recorder) => match producer {
                TestProducer::Recorder(producer) => recorder.read(producer),
                _ => panic!("Node does not offer such producer"),
            },
        }
    }

    fn write(&mut self, consumer: TestConsumer, input: Payload) {
        match self {
            Self::Generator(_) => panic!("Node does not offer such consumer"),
            Self::Sum(sum) => match consumer {
                TestConsumer::Sum(consumer) => sum.write(consumer, input),
                _ => panic!("Node does not offer such consumer"),
            },
            Self::Recorder(recorder) => match consumer {
                TestConsumer::Recorder(consumer) => recorder.write(consumer, input),
                _ => panic!("Node does not offer such consumer"),
            },
        }
    }
}

impl ExternalNodeWrapper<Payload> for TestNode {}

#[derive(PartialEq, Eq, Copy, Clone, Hash, Debug)]
struct TestNodeIndex {
    class: TestNodeClass,
    index: usize,
}

impl Same for TestNodeIndex {
    fn same(&self, other: &Self) -> bool {
        self == other
    }
}

impl NodeIndex for TestNodeIndex {
    type Class = TestNodeClass;
    type Consumer = TestConsumer;
    type Producer = TestProducer;

    fn new(class: TestNodeClass, index: usize) -> Self {
        Self { class, index }
    }

    fn consumer(&self, consumer: TestConsumer) -> TestConsumerIndex {
        match self.class {
            TestNodeClass::Generator => panic!("Node does not offer such consumer"),
            TestNodeClass::Sum => match consumer {
                TestConsumer::Sum(_) => TestConsumerIndex::new(*self, consumer),
                _ => panic!("Node does not offer such consumer"),
            },
            TestNodeClass::Recorder => match consumer {
                TestConsumer::Recorder(_) => TestConsumerIndex::new(*self, consumer),
                _ => panic!("Node does not offer such consumer"),
            },
        }
    }

    fn producer(&self, producer: TestProducer) -> TestProducerIndex {
        match self.class {
            TestNodeClass::Generator => match producer {
                TestProducer::Generator(_) => TestProducerIndex::new(*self, producer),
                _ => panic!("Node does not offer such producer"),
            },
            TestNodeClass::Sum => match producer {
                TestProducer::Sum(_) => TestProducerIndex::new(*self, producer),
                _ => panic!("Node does not offer such producer"),
            },
            TestNodeClass::Recorder => match producer {
                TestProducer::Recorder(_) => TestProducerIndex::new(*self, producer),
                _ => panic!("Node does not offer such producer"),
            },
        }
    }
}

#[derive(PartialEq, Eq, Copy, Clone, Hash, Debug)]
enum TestConsumer {
    Sum(SumConsumer),
    Recorder(RecorderConsumer),
}

impl Same for TestConsumer {
    fn same(&self, other: &Self) -> bool {
        self == other
    }
}

impl ExternalConsumer for TestConsumer {}

type TestConsumerIndex = CommonConsumerIndex<TestNodeIndex>;

#[derive(PartialEq, Eq, Copy, Clone, Hash, Debug)]
enum TestProducer {
    Generator(GeneratorProducer),
    Sum(SumProducer),
    Recorder(RecorderProducer),
}

impl Same for TestProducer {
    fn same(&self, other: &Self) -> bool {
        self == other
    }
}

impl ExternalProducer for TestProducer {}

type TestProducerIndex = CommonProducerIndex<TestNodeIndex>;

type TestSignalGraph = SignalGraph<TestNode, TestNodeIndex>;

fn recorded(graph: &TestSignalGraph, recorder: &TestNodeIndex) -> Payload {
    graph
        .node(recorder)
        .unwrap()
        .read(RecorderProducer.into())
}

#[test]
fn write_tick_read_internal_signal_node() {
    let (source, sink) = new_feedback_pair();
    let mut source: SignalNode<TestNode> = source.into();
    let mut sink: SignalNode<TestNode> = sink.into();

    source.write(FeedbackSourceConsumer.into(), 10);
    source.tick();
    sink.tick();
    assert_eq!(sink.read(FeedbackSinkProducer.into()), 10);
}

#[test]
fn write_tick_read_registered_signal_node() {
    let mut node: SignalNode<TestNode> = SignalNode::Registered(Sum::default().into());

    node.write(SignalConsumer::Registered(SumConsumer::In1.into()), 10);
    node.write(SignalConsumer::Registered(SumConsumer::In2.into()), 20);
    node.tick();
    assert_eq!(
        node.read(SignalProducer::Registered(SumProducer.into())),
        30
    );
}

//
//    [Rec]
//      |
//     [+]
//    /   \
//  [1]   [2]
//
#[test]
fn tick_in_simple_tree() {
    let mut graph = TestSignalGraph::new();
    let one = graph.add_node(Generator::new(1).into());
    let two = graph.add_node(Generator::new(2).into());
    let sum = graph.add_node(Sum::default().into());
    let recorder = graph.add_node(Recorder::default().into());
    graph.add_edge(
        one.producer(GeneratorProducer.into()),
        sum.consumer(SumConsumer::In1.into()),
    );
    graph.add_edge(
        two.producer(GeneratorProducer.into()),
        sum.consumer(SumConsumer::In2.into()),
    );
    graph.add_edge(
        sum.producer(SumProducer.into()),
        recorder.consumer(RecorderConsumer.into()),
    );

    graph.tick();
    assert_eq!(
        graph
            .node(&recorder)
            .unwrap()
            .read(RecorderProducer.into()),
        3
    );
}

// The same tree, wired through the graph as the generated glue would.
#[test]
fn simple_tree() {
    let mut graph = TestSignalGraph::new();

    let one = graph.add_node(Generator::new(1).into());
    let two = graph.add_node(Generator::new(2).into());
    let sum = graph.add_node(Sum::default().into());
    let recorder = graph.add_node(Recorder::default().into());

    graph.add_edge(
        one.producer(GeneratorProducer.into()),
        sum.consumer(SumConsumer::In1.into()),
    );
    graph.add_edge(
        two.producer(GeneratorProducer.into()),
        sum.consumer(SumConsumer::In2.into()),
    );
    graph.add_edge(
        sum.producer(SumProducer.into()),
        recorder.consumer(RecorderConsumer.into()),
    );

    graph.tick();
    assert_eq!(
        graph
            .node(&recorder)
            .unwrap()
            .read(RecorderProducer.into()),
        3
    );
}

//
//  [Rec]   [Rec]
//      \   /
//       [+]
//      /   \
//    [1]   [2]
//
#[test]
fn tick_with_multiple_consumers() {
    let mut graph = TestSignalGraph::new();
    let one = graph.add_node(Generator::new(1).into());
    let two = graph.add_node(Generator::new(2).into());
    let sum = graph.add_node(Sum::default().into());
    let recorder1 = graph.add_node(Recorder::default().into());
    let recorder2 = graph.add_node(Recorder::default().into());
    graph.add_edge(
        one.producer(GeneratorProducer.into()),
        sum.consumer(SumConsumer::In1.into()),
    );
    graph.add_edge(
        two.producer(GeneratorProducer.into()),
        sum.consumer(SumConsumer::In2.into()),
    );
    graph.add_edge(
        sum.producer(SumProducer.into()),
        recorder1.consumer(RecorderConsumer.into()),
    );
    graph.add_edge(
        sum.producer(SumProducer.into()),
        recorder2.consumer(RecorderConsumer.into()),
    );

    graph.tick();
    assert_eq!(recorded(&graph, &recorder1), 3);
    assert_eq!(recorded(&graph, &recorder2), 3);
}

//
//  [Rec]    __
//      \   /  |
//       [+]   V
//      /   \__|
//    [1]
//
#[test]
fn tick_with_internal_cycle() {
    let mut graph = TestSignalGraph::new();
    let one = graph.add_node(Generator::new(1).into());
    let sum = graph.add_node(Sum::default().into());
    let recorder = graph.add_node(Recorder::default().into());
    graph.add_edge(
        one.producer(GeneratorProducer.into()),
        sum.consumer(SumConsumer::In1.into()),
    );
    graph.add_edge(
        sum.producer(SumProducer.into()),
        sum.consumer(SumConsumer::In2.into()),
    );
    graph.add_edge(
        sum.producer(SumProducer.into()),
        recorder.consumer(RecorderConsumer.into()),
    );

    graph.tick();
    assert_eq!(recorded(&graph, &recorder), 1);
    graph.tick();
    assert_eq!(recorded(&graph, &recorder), 2);
}

//
//    [Rec]
//      |
//     [1]
//
#[test]
fn check_for_edge() {
    let mut graph = TestSignalGraph::new();
    let one = graph.add_node(Generator::new(1).into());
    let recorder = graph.add_node(Recorder::default().into());
    graph.add_edge(
        one.producer(GeneratorProducer.into()),
        recorder.consumer(RecorderConsumer.into()),
    );

    assert!(graph.has_edge(
        one.producer(GeneratorProducer.into()),
        recorder.consumer(RecorderConsumer.into()),
    ));
}

//
//    [Rec]
//      |
//     [1]
//
#[test]
fn signal_remove_edge() {
    let mut graph = TestSignalGraph::new();
    let one = graph.add_node(Generator::new(1).into());
    let recorder = graph.add_node(Recorder::default().into());
    graph.add_edge(
        one.producer(GeneratorProducer.into()),
        recorder.consumer(RecorderConsumer.into()),
    );

    graph.remove_edge(
        one.producer(GeneratorProducer.into()),
        recorder.consumer(RecorderConsumer.into()),
    );

    assert!(!graph.has_edge(
        one.producer(GeneratorProducer.into()),
        recorder.consumer(RecorderConsumer.into()),
    ));
}

//           __
//          /  |
//       [+]   V
//      /   \__|
//    [1]
//
#[test]
fn check_for_feedback_edge() {
    let mut graph = TestSignalGraph::new();
    let one = graph.add_node(Generator::new(1).into());
    let sum = graph.add_node(Sum::default().into());
    graph.add_edge(
        one.producer(GeneratorProducer.into()),
        sum.consumer(SumConsumer::In1.into()),
    );
    graph.add_edge(
        sum.producer(SumProducer.into()),
        sum.consumer(SumConsumer::In2.into()),
    );

    assert!(graph.has_edge(
        sum.producer(SumProducer.into()),
        sum.consumer(SumConsumer::In2.into()),
    ));
    assert!(graph.feedback_count() != 0);
}

//           __
//          /  |
//       [+]   V
//      /   \__|
//    [1]
//
#[test]
fn remove_feedback_edge() {
    let mut graph = TestSignalGraph::new();
    let one = graph.add_node(Generator::new(1).into());
    let sum = graph.add_node(Sum::default().into());
    graph.add_edge(
        one.producer(GeneratorProducer.into()),
        sum.consumer(SumConsumer::In1.into()),
    );
    graph.add_edge(
        sum.producer(SumProducer.into()),
        sum.consumer(SumConsumer::In2.into()),
    );

    graph.remove_edge(
        sum.producer(SumProducer.into()),
        sum.consumer(SumConsumer::In2.into()),
    );

    assert!(!graph.has_edge(
        sum.producer(SumProducer.into()),
        sum.consumer(SumConsumer::In2.into()),
    ));
    assert!(graph.feedback_count() == 0);
}

//           ___
//          /   |
//       [Rec]  |
// del ->  |    |
//       [Rec]  V
//         |    |
//        [+]   |
//       /   \__|
//      [1]
//
#[test]
fn remove_redundant_feedback_edge() {
    let mut graph = TestSignalGraph::new();
    let one = graph.add_node(Generator::new(1).into());
    let sum = graph.add_node(Sum::default().into());
    let recorder1 = graph.add_node(Recorder::default().into());
    let recorder2 = graph.add_node(Recorder::default().into());
    graph.add_edge(
        one.producer(GeneratorProducer.into()),
        sum.consumer(SumConsumer::In1.into()),
    );
    graph.add_edge(
        sum.producer(SumProducer.into()),
        recorder1.consumer(RecorderConsumer.into()),
    );
    graph.add_edge(
        recorder1.producer(RecorderProducer.into()),
        recorder2.consumer(RecorderConsumer.into()),
    );
    graph.add_edge(
        recorder2.producer(RecorderProducer.into()),
        sum.consumer(SumConsumer::In2.into()),
    );

    assert!(graph.feedback_count() != 0);

    graph.remove_edge(
        recorder1.producer(RecorderProducer.into()),
        recorder2.consumer(RecorderConsumer.into()),
    );

    assert!(graph.feedback_count() == 0);
}

//             ___
//            /   |
//         [Rec]  |
//           |    |
//         [Rec]  V
//           |    |
//          [+]   |
//  del -> /   \__|
//        [1]
//
#[test]
fn do_not_remove_needed_feedback_edge() {
    let mut graph = TestSignalGraph::new();
    let one = graph.add_node(Generator::new(1).into());
    let sum = graph.add_node(Sum::default().into());
    let recorder1 = graph.add_node(Recorder::default().into());
    let recorder2 = graph.add_node(Recorder::default().into());
    graph.add_edge(
        one.producer(GeneratorProducer.into()),
        sum.consumer(SumConsumer::In1.into()),
    );
    graph.add_edge(
        sum.producer(SumProducer.into()),
        recorder1.consumer(RecorderConsumer.into()),
    );
    graph.add_edge(
        recorder1.producer(RecorderProducer.into()),
        recorder2.consumer(RecorderConsumer.into()),
    );
    graph.add_edge(
        recorder2.producer(RecorderProducer.into()),
        sum.consumer(SumConsumer::In2.into()),
    );
    let original_feedbacks = graph.feedback_count();

    graph.remove_edge(
        one.producer(GeneratorProducer.into()),
        sum.consumer(SumConsumer::In1.into()),
    );
    assert_eq!(graph.feedback_count(), original_feedbacks);
}

#[test]
fn signal_get_node() {
    let mut graph = TestSignalGraph::new();
    let one = graph.add_node(Generator::new(1).into());

    assert_eq!(
        graph.node(&one).unwrap().read(GeneratorProducer.into()),
        1
    );
}

#[test]
fn get_mutable_node() {
    let mut graph = TestSignalGraph::new();
    let recorder = graph.add_node(Recorder::default().into());

    graph
        .node_mut(&recorder)
        .unwrap()
        .write(RecorderConsumer.into(), 10);

    assert_eq!(recorded(&graph, &recorder), 10);
}

//
//    [Rec]
//      |
//     [1]
//
#[test]
fn signal_remove_node() {
    let mut graph = TestSignalGraph::new();
    let one = graph.add_node(Generator::new(1).into());
    let recorder = graph.add_node(Recorder::default().into());
    graph.add_edge(
        one.producer(GeneratorProducer.into()),
        recorder.consumer(RecorderConsumer.into()),
    );

    graph.remove_node(recorder);

    assert!(!graph.has_edge(
        one.producer(GeneratorProducer.into()),
        recorder.consumer(RecorderConsumer.into()),
    ));
}

// One constant feeds a sum that feeds itself and a recorder.
#[test]
fn feedback_delays_by_one_tick() {
    let mut graph = TestSignalGraph::new();
    let one = graph.add_node(Generator::new(1).into());
    let sum = graph.add_node(Sum::default().into());
    let recorder = graph.add_node(Recorder::default().into());
    graph.add_edge(
        one.producer(GeneratorProducer.into()),
        sum.consumer(SumConsumer::In1.into()),
    );
    graph.add_edge(
        sum.producer(SumProducer.into()),
        sum.consumer(SumConsumer::In2.into()),
    );
    graph.add_edge(
        sum.producer(SumProducer.into()),
        recorder.consumer(RecorderConsumer.into()),
    );
    assert_eq!(graph.feedback_count(), 1);

    graph.tick();
    assert_eq!(recorded(&graph, &recorder), 1);
    graph.tick();
    assert_eq!(recorded(&graph, &recorder), 2);
    graph.tick();
    assert_eq!(recorded(&graph, &recorder), 3);
}

// A sum with the constant `v` at one input and its own output at the other.
#[test]
fn self_loop_adds_the_previous_output() {
    let v = 5;
    let mut graph = TestSignalGraph::new();
    let constant = graph.add_node(Generator::new(v).into());
    let sum = graph.add_node(Sum::default().into());
    graph.add_edge(
        constant.producer(GeneratorProducer.into()),
        sum.consumer(SumConsumer::In1.into()),
    );
    graph.add_edge(
        sum.producer(SumProducer.into()),
        sum.consumer(SumConsumer::In2.into()),
    );

    graph.tick();
    let first = graph.node(&sum).unwrap().read(SumProducer.into());
    assert_eq!(first, v);
    graph.tick();
    let second = graph.node(&sum).unwrap().read(SumProducer.into());
    assert_eq!(second, v + first);
}

#[test]
fn add_edge_twice_changes_nothing() {
    let mut graph = TestSignalGraph::new();
    let one = graph.add_node(Generator::new(1).into());
    let sum = graph.add_node(Sum::default().into());
    let producer = one.producer(GeneratorProducer.into());
    let consumer = sum.consumer(SumConsumer::In1.into());
    let own = sum.producer(SumProducer.into());
    let back = sum.consumer(SumConsumer::In2.into());

    graph.add_edge(producer, consumer);
    graph.add_edge(producer, consumer);
    assert!(graph.has_edge(producer, consumer));
    assert!(graph.has_edge(producer, consumer));
    assert_eq!(graph.feedback_count(), 0);

    graph.add_edge(own, back);
    graph.add_edge(own, back);
    assert!(graph.has_edge(own, back));
    assert_eq!(graph.feedback_count(), 1);

    graph.remove_edge(producer, consumer);
    assert!(!graph.has_edge(producer, consumer));
    graph.remove_edge(own, back);
    assert!(!graph.has_edge(own, back));
    assert_eq!(graph.feedback_count(), 0);
}

#[test]
fn occupied_consumer_keeps_its_edge() {
    let mut graph = TestSignalGraph::new();
    let one = graph.add_node(Generator::new(1).into());
    let two = graph.add_node(Generator::new(2).into());
    let recorder = graph.add_node(Recorder::default().into());
    let first = one.producer(GeneratorProducer.into());
    let second = two.producer(GeneratorProducer.into());
    let consumer = recorder.consumer(RecorderConsumer.into());

    graph.add_edge(first, consumer);
    graph.add_edge(second, consumer);
    assert!(graph.has_edge(first, consumer));
    assert!(!graph.has_edge(second, consumer));

    graph.tick();
    assert_eq!(recorded(&graph, &recorder), 1);
}

#[test]
fn consumer_behind_a_feedback_pair_is_occupied() {
    let mut graph = TestSignalGraph::new();
    let one = graph.add_node(Generator::new(1).into());
    let sum = graph.add_node(Sum::default().into());
    let own = sum.producer(SumProducer.into());
    let back = sum.consumer(SumConsumer::In2.into());
    graph.add_edge(own, back);
    assert_eq!(graph.feedback_count(), 1);

    graph.add_edge(one.producer(GeneratorProducer.into()), back);
    assert!(!graph.has_edge(one.producer(GeneratorProducer.into()), back));
    assert!(graph.has_edge(own, back));
    assert_eq!(graph.feedback_count(), 1);
}

//  A -> B -> C -> A, broken at C -> A; then A -> B goes, and A -> C comes.
#[test]
fn feedback_pair_goes_once_the_cycle_is_gone() {
    let mut graph = TestSignalGraph::new();
    let a = graph.add_node(Recorder::default().into());
    let b = graph.add_node(Recorder::default().into());
    let c = graph.add_node(Sum::default().into());
    let a_out = a.producer(RecorderProducer.into());
    let b_out = b.producer(RecorderProducer.into());
    let c_out = c.producer(SumProducer.into());
    let a_in = a.consumer(RecorderConsumer.into());
    let b_in = b.consumer(RecorderConsumer.into());

    graph.add_edge(a_out, b_in);
    graph.add_edge(b_out, c.consumer(SumConsumer::In1.into()));
    assert_eq!(graph.feedback_count(), 0);
    graph.add_edge(c_out, a_in);
    assert_eq!(graph.feedback_count(), 1);
    assert!(graph.has_edge(c_out, a_in));

    graph.remove_edge(a_out, b_in);
    assert_eq!(graph.feedback_count(), 0);
    assert!(graph.has_edge(c_out, a_in));
    assert!(!graph.has_edge(a_out, b_in));

    graph.add_edge(a_out, c.consumer(SumConsumer::In2.into()));
    assert!(graph.has_edge(a_out, c.consumer(SumConsumer::In2.into())));
    assert!(graph.has_edge(b_out, c.consumer(SumConsumer::In1.into())));
    assert_eq!(graph.feedback_count(), 1);
}

#[test]
fn remove_node_takes_its_edges_and_feedback_pairs() {
    let mut graph = TestSignalGraph::new();
    let one = graph.add_node(Generator::new(1).into());
    let sum = graph.add_node(Sum::default().into());
    let recorder = graph.add_node(Recorder::default().into());
    let feed = one.producer(GeneratorProducer.into());
    let own = sum.producer(SumProducer.into());
    let in1 = sum.consumer(SumConsumer::In1.into());
    let in2 = sum.consumer(SumConsumer::In2.into());
    let kept = recorder.consumer(RecorderConsumer.into());
    graph.add_edge(feed, in1);
    graph.add_edge(own, in2);
    graph.add_edge(own, kept);
    assert_eq!(graph.feedback_count(), 1);

    graph.remove_node(sum);

    assert!(graph.node(&sum).is_none());
    assert!(graph.node(&one).is_some());
    assert!(graph.node(&recorder).is_some());
    assert!(!graph.has_edge(feed, in1));
    assert!(!graph.has_edge(own, in2));
    assert!(!graph.has_edge(own, kept));
    assert_eq!(graph.feedback_count(), 0);

    graph.tick();
    assert_eq!(recorded(&graph, &recorder), 0);
}

//  A -> B -> C -> A, broken at C -> A; then B goes.
#[test]
fn remove_node_heals_a_cycle_that_went_through_it() {
    let mut graph = TestSignalGraph::new();
    let a = graph.add_node(Recorder::default().into());
    let b = graph.add_node(Recorder::default().into());
    let c = graph.add_node(Recorder::default().into());
    let a_out = a.producer(RecorderProducer.into());
    let b_out = b.producer(RecorderProducer.into());
    let c_out = c.producer(RecorderProducer.into());
    let a_in = a.consumer(RecorderConsumer.into());
    let b_in = b.consumer(RecorderConsumer.into());
    let c_in = c.consumer(RecorderConsumer.into());
    graph.add_edge(a_out, b_in);
    graph.add_edge(b_out, c_in);
    graph.add_edge(c_out, a_in);
    assert_eq!(graph.feedback_count(), 1);

    graph.remove_node(b);

    assert!(!graph.has_edge(a_out, b_in));
    assert!(!graph.has_edge(b_out, c_in));
    assert!(graph.has_edge(c_out, a_in));
    assert_eq!(graph.feedback_count(), 0);
}

#[test]
fn node_behind_an_unknown_index_is_none() {
    let mut graph = TestSignalGraph::new();
    let one = graph.add_node(Generator::new(1).into());
    let unknown = TestNodeIndex::new(TestNodeClass::Generator, 100);
    let wrong_class = TestNodeIndex::new(TestNodeClass::Sum, 0);

    assert!(graph.node(&one).is_some());
    assert!(graph.node(&unknown).is_none());
    assert!(graph.node(&wrong_class).is_none());
    assert!(graph.node_mut(&unknown).is_none());
}

#[test]
fn sequence_numbers_skip_feedback_pairs() {
    let mut graph = TestSignalGraph::new();
    let sum = graph.add_node(Sum::default().into());
    assert_eq!(sum, TestNodeIndex::new(TestNodeClass::Sum, 0));
    graph.add_edge(
        sum.producer(SumProducer.into()),
        sum.consumer(SumConsumer::In2.into()),
    );
    let next = graph.add_node(Recorder::default().into());
    assert_eq!(next, TestNodeIndex::new(TestNodeClass::Recorder, 3));
}

#[test]
fn chain_passes_a_value_through_in_one_tick() {
    let mut graph = TestSignalGraph::new();
    let last = graph.add_node(Recorder::default().into());
    let middle = graph.add_node(Recorder::default().into());
    let first = graph.add_node(Generator::new(9).into());
    graph.add_edge(
        middle.producer(RecorderProducer.into()),
        last.consumer(RecorderConsumer.into()),
    );
    graph.add_edge(
        first.producer(GeneratorProducer.into()),
        middle.consumer(RecorderConsumer.into()),
    );

    graph.tick();
    assert_eq!(recorded(&graph, &last), 9);
}

#[test]
fn signal_index_keeps_the_sides_apart() {
    let registered: SignalNodeIndex<TestNodeIndex> =
        SignalNodeIndex::new(SignalNodeClass::Registered(TestNodeClass::Sum), 4);
    let internal: SignalNodeIndex<TestNodeIndex> =
        SignalNodeIndex::new(SignalNodeClass::Internal(InternalClass::FeedbackSink), 4);

    assert_eq!(
        *registered.must_registered(),
        TestNodeIndex::new(TestNodeClass::Sum, 4)
    );
    assert!(
        internal
            == SignalNodeIndex::Internal(InternalNodeIndex::new(InternalClass::FeedbackSink, 4))
    );
    assert!(registered.same(&registered));
    assert!(internal.same(&internal));
    assert!(!registered.same(&internal));
    assert!(!internal.same(&registered));
    assert!(!registered.same(&SignalNodeIndex::new(
        SignalNodeClass::Registered(TestNodeClass::Sum),
        5
    )));
}

#[test]
fn stored_addresses_are_registered_addresses() {
    let sum = TestNodeIndex::new(TestNodeClass::Sum, 2);
    let producer = lift_producer(sum.producer(SumProducer.into()));
    let consumer = lift_consumer(sum.consumer(SumConsumer::In2.into()));

    assert!(producer.node_index == SignalNodeIndex::Registered(sum));
    assert_eq!(producer.producer, SignalProducer::Registered(SumProducer.into()));
    assert!(consumer.node_index == SignalNodeIndex::Registered(sum));
    assert_eq!(
        consumer.consumer,
        SignalConsumer::Registered(SumConsumer::In2.into())
    );

    let address = SignalNodeIndex::Registered(sum).consumer(consumer.consumer);
    assert!(address == consumer);
    assert!(address.same(&consumer));
}

#[test]
fn signal_node_reaches_the_registered_node_inside() {
    let mut node: SignalNode<TestNode> = SignalNode::Registered(Recorder::default().into());
    node.must_registered_mut()
        .write(RecorderConsumer.into(), 4);
    assert_eq!(node.must_registered().read(RecorderProducer.into()), 4);
    assert!(node.class() == SignalNodeClass::Registered(TestNodeClass::Recorder));

    let (source, _sink) = new_feedback_pair::<Payload>();
    let source: SignalNode<TestNode> = source.into();
    assert!(source.class() == SignalNodeClass::Internal(InternalClass::FeedbackSource));
}

#[test]
fn sequence_number_tells_how_many_were_handed_out() {
    let mut graph = TestSignalGraph::new();
    assert_eq!(graph.next_sequence_number(), 0);
    let sum = graph.add_node(Sum::default().into());
    assert_eq!(graph.next_sequence_number(), 1);
    graph.add_edge(
        sum.producer(SumProducer.into()),
        sum.consumer(SumConsumer::In1.into()),
    );
    assert_eq!(graph.next_sequence_number(), 3);
    graph.remove_edge(
        sum.producer(SumProducer.into()),
        sum.consumer(SumConsumer::In1.into()),
    );
    assert_eq!(graph.next_sequence_number(), 3);
    assert_eq!(graph.feedback_count(), 0);
}
