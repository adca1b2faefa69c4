//! A few small nodes over `i32` signals.

use core::convert::Infallible;
use vstd::prelude::*;
use vstd::wrapping::i32_specs::wrapping_add;

use crate::node::{Node, Same};

verus! {

/// Adds up what stands at its two inputs.
pub struct Sum {
    input1: i32,
    input2: i32,
    producer: i32,
}

/// The two inputs of a [`Sum`].
#[derive(PartialEq, Eq, Hash, Clone, Copy, Debug)]
pub enum SumConsumer {
    In1,
    In2,
}

impl Same for SumConsumer {
    fn same(&self, other: &Self) -> (equal: bool) {
        match (self, other) {
            (SumConsumer::In1, SumConsumer::In1) => true,
            (SumConsumer::In2, SumConsumer::In2) => true,
            _ => false,
        }
    }
}

/// The output of a [`Sum`].
#[derive(PartialEq, Eq, Hash, Clone, Copy, Debug)]
pub struct SumProducer;

impl Same for SumProducer {
    fn same(&self, other: &Self) -> (equal: bool) {
        true
    }
}

/// The sum of two inputs, as a number.
pub open spec fn total(inputs: (i32, i32)) -> int {
    inputs.0 + inputs.1
}

/// The sum of two inputs is within the range of `i32`.
pub open spec fn fits(inputs: (i32, i32)) -> bool {
    i32::MIN <= total(inputs) <= i32::MAX
}

impl Sum {
    /// What was written to the first and to the second input last.
    pub closed spec fn inputs(&self) -> (i32, i32) {
        (self.input1, self.input2)
    }

    /// What the node hands out.
    pub closed spec fn output(&self) -> i32 {
        self.producer
    }
}

impl Default for Sum {
    fn default() -> (sum: Self)
        ensures
            sum.inputs() == (0i32, 0i32),
            sum.output() == 0,
    {
        Sum { input1: 0, input2: 0, producer: 0 }
    }
}

impl Node<i32> for Sum {
    type Consumer = SumConsumer;

    type Producer = SumProducer;

    fn write(&mut self, consumer: SumConsumer, input: i32)
        ensures
            final(self).output() == old(self).output(),
            final(self).inputs() == match consumer {
                SumConsumer::In1 => (input, old(self).inputs().1),
                SumConsumer::In2 => (old(self).inputs().0, input),
            },
    {
        match consumer {
            SumConsumer::In1 => self.input1 = input,
            SumConsumer::In2 => self.input2 = input,
        }
    }

    fn read(&self, _producer: SumProducer) -> (value: i32)
        ensures
            value == self.output(),
    {
        self.producer
    }

    /// Hands out the sum of the two inputs from now on. A sum beyond the
    /// range of `i32` wraps around.
    fn tick(&mut self)
        ensures
            final(self).inputs() == old(self).inputs(),
            final(self).output() == wrapping_add(old(self).inputs().0, old(self).inputs().1),
            fits(old(self).inputs()) ==> final(self).output() == total(old(self).inputs()),
    {
        self.producer = self.input1.wrapping_add(self.input2);
    }
}

/// Hands out the same value in every tick.
pub struct Generator(i32);

impl Generator {
    /// The value that the generator hands out.
    pub closed spec fn value(&self) -> i32 {
        self.0
    }

    /// A generator of the given value.
    pub fn new(value: i32) -> (generator: Self)
        ensures
            generator.value() == value,
    {
        Self(value)
    }
}

/// A [`Generator`] has no input: no value of this type can be made.
#[derive(PartialEq, Eq, Hash, Clone, Copy, Debug)]
pub enum GeneratorConsumer {
    Never(Infallible),
}

/// The output of a [`Generator`].
#[derive(PartialEq, Eq, Hash, Clone, Copy, Debug)]
pub struct GeneratorProducer;

impl Same for GeneratorProducer {
    fn same(&self, other: &Self) -> (equal: bool) {
        true
    }
}

impl Node<i32> for Generator {
    type Consumer = GeneratorConsumer;

    type Producer = GeneratorProducer;

    fn read(&self, _producer: GeneratorProducer) -> (value: i32)
        ensures
            value == self.value(),
    {
        self.0
    }
}

/// Keeps what was written to it last, to be shown.
pub struct Echo {
    input: i32,
}

/// The input of an [`Echo`].
#[derive(PartialEq, Eq, Hash, Clone, Copy, Debug)]
pub struct EchoConsumer;

impl Same for EchoConsumer {
    fn same(&self, other: &Self) -> (equal: bool) {
        true
    }
}

/// An [`Echo`] has no output: no value of this type can be made.
#[derive(PartialEq, Eq, Hash, Clone, Copy, Debug)]
pub enum EchoProducer {
    Never(Infallible),
}

impl Echo {
    /// What was written to the node last.
    pub closed spec fn heard(&self) -> i32 {
        self.input
    }

    /// What was written to the node last.
    pub fn input(&self) -> (value: i32)
        ensures
            value == self.heard(),
    {
        self.input
    }
}

impl Default for Echo {
    fn default() -> (echo: Self)
        ensures
            echo.heard() == 0,
    {
        Echo { input: 0 }
    }
}

impl Node<i32> for Echo {
    type Consumer = EchoConsumer;

    type Producer = EchoProducer;

    fn write(&mut self, _consumer: EchoConsumer, input: i32)
        ensures
            final(self).heard() == input,
    {
        self.input = input;
    }
}

/// Keeps what was written to it last, and hands it out.
pub struct Recorder(i32);

/// The input of a [`Recorder`].
#[derive(Clone, Copy, PartialEq, Eq, Hash, Debug)]
pub struct RecorderConsumer;

impl Same for RecorderConsumer {
    fn same(&self, other: &Self) -> (equal: bool) {
        true
    }
}

/// The output of a [`Recorder`].
#[derive(Clone, Copy, PartialEq, Eq, Hash, Debug)]
pub struct RecorderProducer;

impl Same for RecorderProducer {
    fn same(&self, other: &Self) -> (equal: bool) {
        true
    }
}

impl Recorder {
    /// What was written to the node last.
    pub closed spec fn kept(&self) -> i32 {
        self.0
    }
}

impl Default for Recorder {
    fn default() -> (recorder: Self)
        ensures
            recorder.kept() == 0,
    {
        Recorder(0)
    }
}

impl Node<i32> for Recorder {
    type Consumer = RecorderConsumer;

    type Producer = RecorderProducer;

    fn read(&self, _producer: RecorderProducer) -> (value: i32)
        ensures
            value == self.kept(),
    {
        self.0
    }

    fn write(&mut self, _consumer: RecorderConsumer, input: i32)
        ensures
            final(self).kept() == input,
    {
        self.0 = input;
    }
}

} // verus!
