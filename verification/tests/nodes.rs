use graphity::node::{Node, Same};
use graphity::nodes::{
    Echo, EchoConsumer, Generator, GeneratorProducer, Recorder, RecorderConsumer,
    RecorderProducer, Sum, SumConsumer, SumProducer,
};

#[test]
fn generator_hands_out_its_value() {
    let mut generator = Generator::new(7);
    assert_eq!(generator.read(GeneratorProducer), 7);
    generator.tick();
    assert_eq!(generator.read(GeneratorProducer), 7);
}

#[test]
fn sum_adds_its_inputs_on_tick() {
    let mut sum = Sum::default();
    assert_eq!(sum.read(SumProducer), 0);
    sum.write(SumConsumer::In1, 10);
    sum.write(SumConsumer::In2, 20);
    assert_eq!(sum.read(SumProducer), 0);
    sum.tick();
    assert_eq!(sum.read(SumProducer), 30);
    sum.write(SumConsumer::In2, -25);
    assert_eq!(sum.read(SumProducer), 30);
    sum.tick();
    assert_eq!(sum.read(SumProducer), -15);
}

#[test]
fn sum_wraps_around_beyond_the_range() {
    let mut sum = Sum::default();
    sum.write(SumConsumer::In1, i32::MAX);
    sum.write(SumConsumer::In2, 1);
    sum.tick();
    assert_eq!(sum.read(SumProducer), i32::MIN);
}

#[test]
fn recorder_hands_out_what_it_took_in() {
    let mut recorder = Recorder::default();
    assert_eq!(recorder.read(RecorderProducer), 0);
    recorder.write(RecorderConsumer, 10);
    recorder.tick();
    assert_eq!(recorder.read(RecorderProducer), 10);
}

#[test]
fn echo_keeps_what_it_took_in() {
    let mut echo = Echo::default();
    assert_eq!(echo.input(), 0);
    echo.write(EchoConsumer, 5);
    echo.tick();
    assert_eq!(echo.input(), 5);
}

#[test]
fn selectors_tell_themselves_apart() {
    assert!(SumConsumer::In1.same(&SumConsumer::In1));
    assert!(SumConsumer::In2.same(&SumConsumer::In2));
    assert!(!SumConsumer::In1.same(&SumConsumer::In2));
    assert!(!SumConsumer::In2.same(&SumConsumer::In1));
    assert!(SumProducer.same(&SumProducer));
    assert!(GeneratorProducer.same(&GeneratorProducer));
    assert!(RecorderConsumer.same(&RecorderConsumer));
    assert!(RecorderProducer.same(&RecorderProducer));
    assert!(EchoConsumer.same(&EchoConsumer));
}
