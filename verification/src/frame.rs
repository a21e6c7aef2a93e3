use crate::signal::SignalType;
use vstd::prelude::*;

verus! {

/// One complex bin.
#[derive(Debug)]
pub struct Complex<T> {
    pub re: T,
    pub im: T,
}

impl<T: Copy> Clone for Complex<T> {
    fn clone(&self) -> (r: Self)
        ensures
            r == *self,
    {
        *self
    }
}

impl<T: Copy> Copy for Complex<T> {

}

/// One frame of signal, as it travels along an edge of the graph.
#[derive(Debug)]
pub enum Frame<T> {
    Audio(Vec<T>),
    RealSpectrum(Vec<Complex<T>>),
    ComplexSpectrum(Vec<Complex<T>>),
}

impl<T: Copy> Frame<T> {
    /// The tag of the signal this frame holds.
    pub open spec fn kind(self) -> SignalType {
        match self {
            Frame::Audio(_) => SignalType::AudioBlock,
            Frame::RealSpectrum(_) => SignalType::RealSpectrum,
            Frame::ComplexSpectrum(_) => SignalType::ComplexSpectrum,
        }
    }

    /// The number of samples or bins in the frame.
    pub open spec fn length(self) -> nat {
        match self {
            Frame::Audio(v) => v@.len(),
            Frame::RealSpectrum(v) => v@.len(),
            Frame::ComplexSpectrum(v) => v@.len(),
        }
    }

    /// The length that a frame of type `signal_type` has when the transform
    /// length is `n_fft`.
    pub open spec fn length_for(signal_type: SignalType, n_fft: nat) -> nat {
        match signal_type {
            SignalType::Sample => 1,
            SignalType::AudioBlock => n_fft,
            SignalType::RealSpectrum => n_fft / 2 + 1,
            SignalType::ComplexSpectrum => n_fft,
        }
    }

    /// The samples of an audio frame.
    pub open spec fn audio(self) -> Option<Seq<T>> {
        match self {
            Frame::Audio(v) => Some(v@),
            _ => None,
        }
    }

    /// The bins of a real-transform frame.
    pub open spec fn real_bins(self) -> Option<Seq<Complex<T>>> {
        match self {
            Frame::RealSpectrum(v) => Some(v@),
            _ => None,
        }
    }

    pub fn signal_type(&self) -> (t: SignalType)
        ensures
            t == self.kind(),
    {
        match self {
            Frame::Audio(_) => SignalType::AudioBlock,
            Frame::RealSpectrum(_) => SignalType::RealSpectrum,
            Frame::ComplexSpectrum(_) => SignalType::ComplexSpectrum,
        }
    }

    pub fn len(&self) -> (n: usize)
        ensures
            n == self.length(),
    {
        match self {
            Frame::Audio(v) => v.len(),
            Frame::RealSpectrum(v) => v.len(),
            Frame::ComplexSpectrum(v) => v.len(),
        }
    }

    /// A frame of the given type for transform length `n_fft`, every sample
    /// and both parts of every bin equal to `zero`. There is no frame of
    /// single samples.
    pub fn zeros(signal_type: SignalType, n_fft: usize, zero: T) -> (f: Option<Frame<T>>)
        ensures
            signal_type == SignalType::Sample <==> f is None,
            f matches Some(frame) ==> {
                &&& frame.kind() == signal_type
                &&& frame.length() == Self::length_for(signal_type, n_fft as nat)
                &&& frame matches Frame::Audio(v) ==> v@ == Seq::new(n_fft as nat, |i: int| zero)
                &&& frame matches Frame::RealSpectrum(v) ==> v@ == Seq::new(
                    (n_fft / 2 + 1) as nat,
                    |i: int| Complex { re: zero, im: zero },
                )
                &&& frame matches Frame::ComplexSpectrum(v) ==> v@ == Seq::new(
                    n_fft as nat,
                    |i: int| Complex { re: zero, im: zero },
                )
            },
    {
        match signal_type {
            SignalType::Sample => None,
            SignalType::AudioBlock => Some(Frame::Audio(repeat(zero, n_fft))),
            SignalType::RealSpectrum => Some(
                Frame::RealSpectrum(repeat(Complex { re: zero, im: zero }, n_fft / 2 + 1)),
            ),
            SignalType::ComplexSpectrum => Some(
                Frame::ComplexSpectrum(repeat(Complex { re: zero, im: zero }, n_fft)),
            ),
        }
    }

    /// The samples, if this is an audio frame.
    pub fn as_audio(&self) -> (r: Option<&Vec<T>>)
        ensures
            r is Some <==> self.audio() is Some,
            r matches Some(v) ==> Some(v@) == self.audio(),
    {
        match self {
            Frame::Audio(v) => Some(v),
            _ => None,
        }
    }

    /// Overwrites the samples of an audio frame of the same length with
    /// `samples`. A frame of another type or length is left as it is.
    pub fn write_audio(&mut self, samples: &Vec<T>) -> (written: bool)
        ensures
            written == (old(self).audio() matches Some(held) && held.len() == samples@.len()),
            written ==> final(self).audio() == Some(samples@),
            !written ==> *final(self) == *old(self),
    {
        match self {
            Frame::Audio(held) => {
                if held.len() == samples.len() {
                    copy_into(samples, held);
                    assert(held@ =~= samples@);
                    true
                } else {
                    false
                }
            },
            _ => false,
        }
    }

    /// Overwrites the bins of a real-transform frame of the same length with
    /// `bins`. A frame of another type or length is left as it is.
    pub fn write_real_spectrum(&mut self, bins: &Vec<Complex<T>>) -> (written: bool)
        ensures
            written == (old(self).real_bins() matches Some(held) && held.len() == bins@.len()),
            written ==> final(self).real_bins() == Some(bins@),
            !written ==> *final(self) == *old(self),
    {
        match self {
            Frame::RealSpectrum(held) => {
                if held.len() == bins.len() {
                    copy_into(bins, held);
                    assert(held@ =~= bins@);
                    true
                } else {
                    false
                }
            },
            _ => false,
        }
    }

    /// The bins, if this is a real-transform frame.
    pub fn as_real_spectrum(&self) -> (r: Option<&Vec<Complex<T>>>)
        ensures
            r is Some <==> self.real_bins() is Some,
            r matches Some(v) ==> Some(v@) == self.real_bins(),
    {
        match self {
            Frame::RealSpectrum(v) => Some(v),
            _ => None,
        }
    }
}

/// Copies `source` over `target`, which has the same length.
pub fn copy_into<U: Copy>(source: &Vec<U>, target: &mut Vec<U>)
    requires
        source@.len() == old(target)@.len(),
    ensures
        final(target)@ == source@,
{
    let n = source.len();
    let mut i: usize = 0;
    while i < n
        invariant
            i <= n == source@.len(),
            target@.len() == n,
            forall|j: int| 0 <= j < i ==> target@[j] == source@[j],
        decreases n - i,
    {
        target.set(i, source[i]);
        i += 1;
    }
    assert(target@ =~= source@);
}

/// A vector of `n` copies of `value`.
pub fn repeat<U: Copy>(value: U, n: usize) -> (v: Vec<U>)
    ensures
        v@ == Seq::new(n as nat, |i: int| value),
{
    let mut v: Vec<U> = Vec::with_capacity(n);
    let mut i: usize = 0;
    while i < n
        invariant
            i <= n,
            v@ == Seq::new(i as nat, |j: int| value),
        decreases n - i,
    {
        v.push(value);
        i += 1;
        assert(v@ =~= Seq::new(i as nat, |j: int| value));
    }
    v
}

} // verus!
