use graphity::feedback::{
    new_feedback_pair, FeedbackSink, FeedbackSinkProducer, FeedbackSource, FeedbackSourceConsumer,
};
use graphity::node::Node;

#[test]
fn initialize() {
    let (_source, _sink): (FeedbackSource<i32>, FeedbackSink<i32>) = new_feedback_pair();
}

#[test]
fn pass_data_to_sink_i32() {
    let (mut source, mut sink) = new_feedback_pair();
    source.write(FeedbackSourceConsumer, 10);
    source.tick();
    sink.tick();
    assert_eq!(sink.read(FeedbackSinkProducer), 10);
}

#[test]
fn pass_data_to_sink_array_i32() {
    let (mut source, mut sink) = new_feedback_pair();
    source.write(FeedbackSourceConsumer, [10, 20]);
    source.tick();
    sink.tick();
    assert_eq!(sink.read(FeedbackSinkProducer), [10, 20]);
}

#[test]
fn sink_reads_default_before_first_write() {
    let (_source, sink): (FeedbackSource<i32>, FeedbackSink<i32>) = new_feedback_pair();
    assert_eq!(sink.read(FeedbackSinkProducer), 0);
}

#[test]
fn sink_reads_last_of_several_writes() {
    let (mut source, sink) = new_feedback_pair();
    source.write(FeedbackSourceConsumer, 1);
    source.write(FeedbackSourceConsumer, 2);
    assert_eq!(sink.read(FeedbackSinkProducer), 2);
    source.write(FeedbackSourceConsumer, 3);
    assert_eq!(sink.read(FeedbackSinkProducer), 3);
}

#[test]
fn pairs_do_not_share_their_cells() {
    let (mut first_source, first_sink) = new_feedback_pair();
    let (mut second_source, second_sink) = new_feedback_pair();
    first_source.write(FeedbackSourceConsumer, 7);
    second_source.write(FeedbackSourceConsumer, 9);
    assert_eq!(first_sink.read(FeedbackSinkProducer), 7);
    assert_eq!(second_sink.read(FeedbackSinkProducer), 9);
}
