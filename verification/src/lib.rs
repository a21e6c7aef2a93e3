//! A short-time Fourier transform sub-graph engine.
//!
//! Time-domain sample streams are cut into overlapping windowed frames, each
//! frame is carried through a directed acyclic graph of spectral processors,
//! and the result is put back together by overlap-add. The engine is generic
//! over the sample type: it moves samples and decides when frames run, and the
//! caller supplies the sample arithmetic.
use crate::signal::{decimal, index_text};
use vstd::prelude::*;

pub mod arith;
pub mod builtins;
pub mod frame;
pub mod graph;
pub mod node;
pub mod order;
pub mod processor;
pub mod schedule;
pub mod signal;
pub mod window;

verus! {

/// The error type of the transform crate, carried through as it is.
#[verifier::external_type_specification]
#[verifier::external_body]
pub struct ExRealFftError(realfft::FftError);

/// A failure of a Fourier transform.
#[derive(Debug)]
pub enum TransformError {
    RealFft(realfft::FftError),
}

/// Why a transform refused its buffers or its input.
#[derive(Clone, Copy, Debug, PartialEq, Eq, Structural)]
pub enum TransformFault {
    /// The input buffer has the wrong length: the length expected, then the
    /// length given.
    InputBuffer(usize, usize),
    /// The output buffer has the wrong length: the length expected, then the
    /// length given.
    OutputBuffer(usize, usize),
    /// The scratch buffer is too short: the least length, then the length
    /// given.
    ScratchBuffer(usize, usize),
    /// The first or the last bin of the input, or both, had an imaginary
    /// part that was not zero: whether the first had, then whether the last.
    InputValues(bool, bool),
}

/// Takes a `realfft::FftError` apart: each variant gives the variant of the
/// same name with the same two values. Nothing is claimed of the result.
#[verifier::external_body]
fn fault_of(error: &realfft::FftError) -> (fault: TransformFault) {
    match error {
        realfft::FftError::InputBuffer(a, b) => TransformFault::InputBuffer(*a, *b),
        realfft::FftError::OutputBuffer(a, b) => TransformFault::OutputBuffer(*a, *b),
        realfft::FftError::ScratchBuffer(a, b) => TransformFault::ScratchBuffer(*a, *b),
        realfft::FftError::InputValues(a, b) => TransformFault::InputValues(*a, *b),
    }
}

/// `String::push_str`: the text `tail` is appended to `head`.
#[verifier::external_body]
pub(crate) fn push_str(head: &mut String, tail: &str)
    ensures
        final(head)@ == old(head)@ + tail@,
{
    head.push_str(tail)
}

impl TransformFault {
    /// What the fault reads as.
    pub open spec fn detail(self) -> Seq<char> {
        match self {
            TransformFault::InputBuffer(expected, got) => "Wrong length of input, expected "@
                + decimal(expected as nat) + ", got "@ + decimal(got as nat),
            TransformFault::OutputBuffer(expected, got) => "Wrong length of output, expected "@
                + decimal(expected as nat) + ", got "@ + decimal(got as nat),
            TransformFault::ScratchBuffer(least, got) => "Scratch buffer of size "@ + decimal(
                got as nat,
            ) + " is too small, must be at least "@ + decimal(least as nat) + " long"@,
            TransformFault::InputValues(first, last) => if first && last {
                "Imaginary parts of both first and last values were non-zero."@
            } else if first {
                "Imaginary part of first value was non-zero."@
            } else if last {
                "Imaginary part of last value was non-zero."@
            } else {
                "No imaginary part was non-zero."@
            },
        }
    }

    /// The message for the fault: the prefix, then what the fault reads as.
    pub open spec fn text(self) -> Seq<char> {
        TransformError::prefix() + self.detail()
    }

    /// Appends two numbers to `text`, each behind its own words.
    fn push_pair(text: &mut String, first_words: &str, first: usize, second_words: &str, second: usize)
        ensures
            final(text)@ == old(text)@ + (first_words@ + decimal(first as nat) + second_words@
                + decimal(second as nat)),
    {
        push_str(text, first_words);
        let digits = index_text(first);
        push_str(text, digits.as_str());
        push_str(text, second_words);
        let digits = index_text(second);
        push_str(text, digits.as_str());
        assert(text@ =~= old(text)@ + (first_words@ + decimal(first as nat) + second_words@
            + decimal(second as nat)));
    }

    /// The message for the fault.
    pub fn message(self) -> (text: String)
        ensures
            text@ == self.text(),
    {
        let mut text = "FFT error: ".to_owned();
        match self {
            TransformFault::InputBuffer(expected, got) => {
                Self::push_pair(
                    &mut text,
                    "Wrong length of input, expected ",
                    expected,
                    ", got ",
                    got,
                );
            },
            TransformFault::OutputBuffer(expected, got) => {
                Self::push_pair(
                    &mut text,
                    "Wrong length of output, expected ",
                    expected,
                    ", got ",
                    got,
                );
            },
            TransformFault::ScratchBuffer(least, got) => {
                Self::push_pair(
                    &mut text,
                    "Scratch buffer of size ",
                    got,
                    " is too small, must be at least ",
                    least,
                );
                push_str(&mut text, " long");
                assert(text@ =~= self.text());
            },
            TransformFault::InputValues(first, last) => {
                if first && last {
                    push_str(
                        &mut text,
                        "Imaginary parts of both first and last values were non-zero.",
                    );
                } else if first {
                    push_str(&mut text, "Imaginary part of first value was non-zero.");
                } else if last {
                    push_str(&mut text, "Imaginary part of last value was non-zero.");
                } else {
                    push_str(&mut text, "No imaginary part was non-zero.");
                }
            },
        }
        text
    }
}

impl TransformError {
    /// The words every message starts with.
    pub open spec fn prefix() -> Seq<char> {
        "FFT error: "@
    }

    /// What went wrong.
    pub fn fault(&self) -> TransformFault {
        match self {
            TransformError::RealFft(inner) => fault_of(inner),
        }
    }

    /// A description of the failure: the message of its fault.
    pub fn message(&self) -> (text: String)
        ensures
            exists|fault: TransformFault| text@ == fault.text(),
            Self::prefix().is_prefix_of(text@),
    {
        let fault = self.fault();
        fault.message()
    }
}

/// The families of window from which the analysis and synthesis window is
/// made.
#[derive(Debug, Clone, Copy, PartialEq, Eq, Structural)]
pub enum WindowFunction {
    Rectangular,
    Hann,
    Hamming,
    Blackman,
    Nuttall,
    Triangular,
}

impl Default for WindowFunction {
    fn default() -> (w: Self)
        ensures
            w == WindowFunction::Hann,
    {
        WindowFunction::Hann
    }
}

} // verus!
