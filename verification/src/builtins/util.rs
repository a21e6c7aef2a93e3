use crate::frame::{repeat, Frame};
use crate::processor::{FftProcessor, ProcessorError, ProcessorInputs};
use crate::signal::{Fft, SignalSpec, SignalType};
use vstd::prelude::*;

verus! {

/// The stub that stands at the head of each audio input of a graph: it has no
/// inputs and one audio output, and its `process` does nothing. The graph
/// writes each windowed frame straight into the stub's output buffer.
pub struct Null<T> {
    n_fft: usize,
    zero: T,
}

impl<T: Copy> Null<T> {
    /// The length of the frame that the stub puts out.
    pub closed spec fn frame_length(&self) -> nat {
        self.n_fft as nat
    }

    /// The sample that fresh output buffers are filled with.
    pub closed spec fn fill(&self) -> T {
        self.zero
    }

    /// A stub for frames of the size `F`, whose fresh buffers hold `zero`.
    pub fn new<F: Fft>(zero: T) -> (stub: Self)
        ensures
            stub.frame_length() == F::fft_length(),
            stub.fill() == zero,
    {
        Self::with_length(F::n_fft(), zero)
    }

    /// A stub for frames of `n_fft` samples, whose fresh buffers hold `zero`.
    pub fn with_length(n_fft: usize, zero: T) -> (stub: Self)
        ensures
            stub.frame_length() == n_fft,
            stub.fill() == zero,
    {
        Null { n_fft, zero }
    }
}

impl<T: Copy + Send> FftProcessor<T> for Null<T> {
    fn name(&self) -> (r: &str)
        ensures
            r@ == "Null"@,
    {
        "Null"
    }

    fn input_spec(&self) -> (r: Vec<SignalSpec>)
        ensures
            r@.len() == 0,
    {
        Vec::new()
    }

    fn output_spec(&self) -> (r: Vec<SignalSpec>)
        ensures
            r@.len() == 1,
            r@[0].name@ == "output"@,
            r@[0].signal_type == SignalType::AudioBlock,
    {
        let mut specs: Vec<SignalSpec> = Vec::with_capacity(1);
        specs.push(SignalSpec::new("output", SignalType::AudioBlock));
        specs
    }

    fn create_output_buffers(&self, size: usize) -> (r: Vec<Frame<T>>)
        ensures
            r@.len() == 1,
            r@[0].audio() == Some(Seq::new(self.frame_length(), |i: int| self.fill())),
    {
        let mut buffers: Vec<Frame<T>> = Vec::with_capacity(1);
        buffers.push(Frame::Audio(repeat(self.zero, self.n_fft)));
        buffers
    }

    fn allocate(&mut self, sample_rate: T)
        ensures
            final(self).frame_length() == old(self).frame_length(),
            final(self).fill() == old(self).fill(),
    {
    }

    fn resize_buffers(&mut self, sample_rate: T)
        ensures
            final(self).frame_length() == old(self).frame_length(),
            final(self).fill() == old(self).fill(),
    {
    }

    fn process(&mut self, inputs: &ProcessorInputs<'_, T>, outputs: &mut Vec<Frame<T>>) -> (r:
        Result<(), ProcessorError>)
        ensures
            r is Ok,
            *final(self) == *old(self),
            *final(outputs) == *old(outputs),
    {
        Ok(())
    }
}

} // verus!
