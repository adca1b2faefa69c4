use graphity::feedback::{new_feedback_pair, FeedbackSinkProducer, FeedbackSourceConsumer};
use graphity::internal::{
    InternalClass, InternalConsumer, InternalNode, InternalNodeIndex, InternalProducer,
};
use graphity::node::{NodeClass, NodeIndex};

#[test]
fn access_nested_node_i32() {
    let (source, sink) = new_feedback_pair();
    let mut source: InternalNode<_> = InternalNode::FeedbackSource(source);
    let mut sink: InternalNode<_> = InternalNode::FeedbackSink(sink);

    source.write(InternalConsumer::FeedbackSource(FeedbackSourceConsumer), 10);
    source.tick();
    sink.tick();
    assert_eq!(
        sink.read(InternalProducer::FeedbackSink(FeedbackSinkProducer)),
        10
    );
}

#[test]
fn access_nested_node_array_i32() {
    let (source, sink) = new_feedback_pair();
    let mut source: InternalNode<_> = InternalNode::FeedbackSource(source);
    let mut sink: InternalNode<_> = InternalNode::FeedbackSink(sink);

    source.write(
        InternalConsumer::FeedbackSource(FeedbackSourceConsumer),
        [10, 20],
    );
    source.tick();
    sink.tick();
    assert_eq!(
        sink.read(InternalProducer::FeedbackSink(FeedbackSinkProducer)),
        [10, 20]
    );
}

#[test]
fn internal_node_knows_its_class() {
    let (source, sink) = new_feedback_pair::<i32>();
    let source: InternalNode<i32> = source.into();
    let sink: InternalNode<i32> = sink.into();
    assert_eq!(source.class(), InternalClass::FeedbackSource);
    assert_eq!(sink.class(), InternalClass::FeedbackSink);
}

#[test]
fn internal_index_addresses_its_ports() {
    let source = InternalNodeIndex::new(InternalClass::FeedbackSource, 3);
    let sink = InternalNodeIndex::new(InternalClass::FeedbackSink, 4);
    assert_ne!(source, sink);
    assert_eq!(source, InternalNodeIndex::new(InternalClass::FeedbackSource, 3));

    let consumer = source.consumer(FeedbackSourceConsumer.into());
    assert_eq!(consumer.node_index, source);
    assert_eq!(
        consumer.consumer,
        InternalConsumer::FeedbackSource(FeedbackSourceConsumer)
    );

    let producer = sink.producer(FeedbackSinkProducer.into());
    assert_eq!(producer.node_index, sink);
    assert_eq!(
        producer.producer,
        InternalProducer::FeedbackSink(FeedbackSinkProducer)
    );
}
