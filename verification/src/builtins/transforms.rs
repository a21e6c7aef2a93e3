use crate::frame::{copy_into, repeat, Complex, Frame};
use crate::processor::{FftProcessor, ProcessorError, ProcessorInputs};
use crate::signal::{real_bins, Fft, SignalSpec, SignalType};
use crate::TransformFault;
use vstd::prelude::*;

verus! {

/// A planned real-to-complex transform of one fixed length. It reads a frame
/// of samples and writes the bins from bin 0 through the Nyquist bin.
pub trait RealToComplex<T: Copy>: Send {
    fn process(&mut self, input: &Vec<T>, output: &mut Vec<Complex<T>>) -> Result<
        (),
        TransformFault,
    >;
}

/// A planned complex-to-real transform of one fixed length. It reads the bins
/// from bin 0 through the Nyquist bin and writes a frame of samples.
pub trait ComplexToReal<T: Copy>: Send {
    /// Transforms `input` into `output`. The first and the last bin of
    /// `input` must be real: their imaginary part is `zero`.
    fn process(&mut self, input: &Vec<Complex<T>>, zero: T, output: &mut Vec<T>) -> Result<
        (),
        TransformFault,
    >
        requires
            has_real_edges(input@, zero),
    ;
}

/// The first and the last bin of `bins` have the imaginary part `zero`.
pub open spec fn has_real_edges<T>(bins: Seq<Complex<T>>, zero: T) -> bool {
    bins.len() > 0 ==> bins[0].im == zero && bins[bins.len() - 1].im == zero
}

/// `bins` with the imaginary parts of its first and its last bin replaced by
/// `zero`.
pub open spec fn with_real_edges<T>(bins: Seq<Complex<T>>, zero: T) -> Seq<Complex<T>> {
    Seq::new(
        bins.len(),
        |i: int|
            if i == 0 || i == bins.len() - 1 {
                Complex { re: bins[i].re, im: zero }
            } else {
                bins[i]
            },
    )
}

/// Makes the first and the last bin real: the inverse real transform is
/// defined only where bin 0 and the Nyquist bin have no imaginary part.
pub fn force_real_edges<T: Copy>(bins: &mut Vec<Complex<T>>, zero: T)
    ensures
        final(bins)@ == with_real_edges(old(bins)@, zero),
        has_real_edges(final(bins)@, zero),
{
    let n = bins.len();
    if n > 0 {
        let first = bins[0];
        bins.set(0, Complex { re: first.re, im: zero });
        let last = bins[n - 1];
        bins.set(n - 1, Complex { re: last.re, im: zero });
    }
    assert(bins@ =~= with_real_edges(old(bins)@, zero));
}

/// The error that a failed transform is reported with: a processing error
/// that carries the message of the transform's fault.
pub fn transform_failure(fault: TransformFault) -> (r: ProcessorError)
    ensures
        r matches ProcessorError::ProcessingError(text) && text@ == fault.text(),
{
    ProcessorError::ProcessingError(fault.message())
}

/// `r` is the failure of a transform.
pub open spec fn is_transform_failure(r: Result<(), ProcessorError>) -> bool {
    r matches Err(ProcessorError::ProcessingError(_))
}

/// `r` says that the buffer at output port 0 does not fit.
pub open spec fn is_mismatch_at_0(r: Result<(), ProcessorError>) -> bool {
    r == Err::<(), ProcessorError>(ProcessorError::OutputSpecMismatch(0))
}

/// Output port 0 holds a real-transform frame of `len` bins.
pub open spec fn takes_spectrum<T: Copy>(outputs: Seq<Frame<T>>, len: nat) -> bool {
    outputs.len() > 0 && (outputs[0].real_bins() matches Some(held) && held.len() == len)
}

/// Output port 0 holds an audio frame of `len` samples.
pub open spec fn takes_audio<T: Copy>(outputs: Seq<Frame<T>>, len: nat) -> bool {
    outputs.len() > 0 && (outputs[0].audio() matches Some(held) && held.len() == len)
}

/// What a forward transform node hands on, given how its transform ended and
/// the bins it left in `bins`. A failed transform is reported as a processing
/// error and writes nothing. After a transform that went through, the bins
/// are written to output port 0, which must hold a real-transform frame of
/// `bins`' length; a missing or different buffer is reported and left alone.
pub fn store_spectrum<T: Copy>(
    outcome: Result<(), TransformFault>,
    bins: &Vec<Complex<T>>,
    outputs: &mut Vec<Frame<T>>,
) -> (r: Result<(), ProcessorError>)
    ensures
        final(outputs)@.len() == old(outputs)@.len(),
        forall|i: int| 1 <= i < old(outputs)@.len() ==> final(outputs)@[i] == old(outputs)@[i],
        outcome matches Err(fault) ==> (r matches Err(ProcessorError::ProcessingError(text))
            && text@ == fault.text()),
        outcome is Ok ==> (r is Ok <==> old(outputs)@.len() > 0 && (old(outputs)@[0].real_bins()
            matches Some(held) && held.len() == bins@.len())),
        outcome is Ok && r is Err ==> r == Err::<(), ProcessorError>(
            ProcessorError::OutputSpecMismatch(0),
        ),
        r is Ok ==> final(outputs)@[0].real_bins() == Some(bins@),
        r is Err ==> final(outputs)@ == old(outputs)@,
{
    match outcome {
        Err(fault) => Err(transform_failure(fault)),
        Ok(_) => {
            if outputs.len() == 0 {
                return Err(ProcessorError::OutputSpecMismatch(0));
            }
            let written = outputs[0].write_real_spectrum(bins);
            if written {
                Ok(())
            } else {
                assert(outputs@ =~= old(outputs)@);
                Err(ProcessorError::OutputSpecMismatch(0))
            }
        },
    }
}

/// What an inverse transform node hands on, given how its transform ended and
/// the samples it left in `samples`: as `store_spectrum`, with an audio frame
/// at output port 0.
pub fn store_audio<T: Copy>(
    outcome: Result<(), TransformFault>,
    samples: &Vec<T>,
    outputs: &mut Vec<Frame<T>>,
) -> (r: Result<(), ProcessorError>)
    ensures
        final(outputs)@.len() == old(outputs)@.len(),
        forall|i: int| 1 <= i < old(outputs)@.len() ==> final(outputs)@[i] == old(outputs)@[i],
        outcome matches Err(fault) ==> (r matches Err(ProcessorError::ProcessingError(text))
            && text@ == fault.text()),
        outcome is Ok ==> (r is Ok <==> old(outputs)@.len() > 0 && (old(outputs)@[0].audio()
            matches Some(held) && held.len() == samples@.len())),
        outcome is Ok && r is Err ==> r == Err::<(), ProcessorError>(
            ProcessorError::OutputSpecMismatch(0),
        ),
        r is Ok ==> final(outputs)@[0].audio() == Some(samples@),
        r is Err ==> final(outputs)@ == old(outputs)@,
{
    match outcome {
        Err(fault) => Err(transform_failure(fault)),
        Ok(_) => {
            if outputs.len() == 0 {
                return Err(ProcessorError::OutputSpecMismatch(0));
            }
            let written = outputs[0].write_audio(samples);
            if written {
                Ok(())
            } else {
                assert(outputs@ =~= old(outputs)@);
                Err(ProcessorError::OutputSpecMismatch(0))
            }
        },
    }
}

/// The bridge from the time domain into the spectral domain: one audio frame
/// in, the bins of its real transform out. Nothing is scaled here.
pub struct RealFft<T, P> {
    plan: P,
    n_fft: usize,
    zero: T,
    rfft_output: Vec<Complex<T>>,
}

impl<T: Copy, P: RealToComplex<T>> RealFft<T, P> {
    /// The transform length.
    pub closed spec fn frame_length(&self) -> nat {
        self.n_fft as nat
    }

    /// The sample that fresh buffers are filled with.
    pub closed spec fn fill(&self) -> T {
        self.zero
    }

    /// The bins that the transform left when it last ran.
    pub closed spec fn bins(&self) -> Seq<Complex<T>> {
        self.rfft_output@
    }

    /// A node for frames of the size `F` around the planned transform `plan`.
    /// Its fresh buffers hold `zero`.
    pub fn new<F: Fft>(plan: P, zero: T) -> (node: Self)
        ensures
            node.frame_length() == F::fft_length(),
            node.fill() == zero,
    {
        Self::with_length(F::n_fft(), plan, zero)
    }

    /// A node for frames of `n_fft` samples around the planned transform
    /// `plan`. Its fresh buffers hold `zero`.
    pub fn with_length(n_fft: usize, plan: P, zero: T) -> (node: Self)
        ensures
            node.frame_length() == n_fft,
            node.fill() == zero,
    {
        RealFft {
            plan,
            n_fft,
            zero,
            rfft_output: repeat(Complex { re: zero, im: zero }, n_fft / 2 + 1),
        }
    }
}

impl<T: Copy + Send, P: RealToComplex<T>> FftProcessor<T> for RealFft<T, P> {
    fn name(&self) -> (r: &str)
        ensures
            r@ == "RealFft"@,
    {
        "RealFft"
    }

    fn input_spec(&self) -> (r: Vec<SignalSpec>)
        ensures
            r@.len() == 1,
            r@[0].name@ == "input"@,
            r@[0].signal_type == SignalType::AudioBlock,
    {
        let mut specs: Vec<SignalSpec> = Vec::with_capacity(1);
        specs.push(SignalSpec::new("input", SignalType::AudioBlock));
        specs
    }

    fn output_spec(&self) -> (r: Vec<SignalSpec>)
        ensures
            r@.len() == 1,
            r@[0].name@ == "output"@,
            r@[0].signal_type == SignalType::RealSpectrum,
    {
        let mut specs: Vec<SignalSpec> = Vec::with_capacity(1);
        specs.push(SignalSpec::new("output", SignalType::RealSpectrum));
        specs
    }

    fn create_output_buffers(&self, size: usize) -> (r: Vec<Frame<T>>)
        ensures
            r@.len() == 1,
            r@[0].kind() == SignalType::RealSpectrum,
            r@[0].length() == Frame::<T>::length_for(SignalType::RealSpectrum, self.frame_length()),
            r@[0].real_bins() == Some(
                Seq::new(
                    (self.frame_length() / 2 + 1) as nat,
                    |i: int| Complex { re: self.fill(), im: self.fill() },
                ),
            ),
    {
        let mut buffers: Vec<Frame<T>> = Vec::with_capacity(1);
        buffers.push(Frame::RealSpectrum(repeat(Complex { re: self.zero, im: self.zero }, self.n_fft / 2 + 1)));
        buffers
    }

    fn allocate(&mut self, sample_rate: T)
        ensures
            final(self).frame_length() == old(self).frame_length(),
            final(self).fill() == old(self).fill(),
    {
    }

    fn resize_buffers(&mut self, sample_rate: T)
        ensures
            final(self).frame_length() == old(self).frame_length(),
            final(self).fill() == old(self).fill(),
    {
    }

    fn process(&mut self, inputs: &ProcessorInputs<'_, T>, outputs: &mut Vec<Frame<T>>) -> (r:
        Result<(), ProcessorError>)
        ensures
            final(self).frame_length() == old(self).frame_length(),
            final(self).fill() == old(self).fill(),
            final(outputs)@.len() == old(outputs)@.len(),
            forall|i: int| 1 <= i < old(outputs)@.len() ==> final(outputs)@[i] == old(outputs)@[i],
            !(inputs.frame(0) matches Some(f) && f.audio() is Some) ==> r is Ok && final(outputs)@ == old(outputs)@,
            r is Err ==> final(outputs)@ == old(outputs)@,
            r is Ok && (inputs.frame(0) matches Some(f) && f.audio() is Some) ==> old(outputs)@.len()
                > 0 && final(outputs)@[0].real_bins() == Some(final(self).bins()),
            r is Err ==> is_transform_failure(r) || (is_mismatch_at_0(r) && !takes_spectrum(
                old(outputs)@,
                final(self).bins().len(),
            )),
    {
        match inputs.input_audio(0) {
            None => Ok(()),
            Some(block) => {
                let outcome = self.plan.process(block, &mut self.rfft_output);
                store_spectrum(outcome, &self.rfft_output, outputs)
            },
        }
    }
}

/// The bridge from the spectral domain back into the time domain: the bins of
/// a real transform in, one audio frame out. Before the transform the first
/// and the last bin are made real.
pub struct InverseRealFft<T, P> {
    plan: P,
    n_fft: usize,
    zero: T,
    irfft_input: Vec<Complex<T>>,
    irfft_output: Vec<T>,
}

impl<T: Copy, P: ComplexToReal<T>> InverseRealFft<T, P> {
    /// The transform length.
    pub closed spec fn frame_length(&self) -> nat {
        self.n_fft as nat
    }

    /// The sample that fresh buffers are filled with.
    pub closed spec fn fill(&self) -> T {
        self.zero
    }

    /// The samples that the transform left when it last ran.
    pub closed spec fn samples(&self) -> Seq<T> {
        self.irfft_output@
    }

    /// The bins that the transform was last handed.
    pub closed spec fn handed(&self) -> Seq<Complex<T>> {
        self.irfft_input@
    }

    /// A node for frames of the size `F` around the planned transform `plan`.
    /// Its fresh buffers hold `zero`.
    pub fn new<F: Fft>(plan: P, zero: T) -> (node: Self)
        ensures
            node.frame_length() == F::fft_length(),
            node.fill() == zero,
    {
        Self::with_length(F::n_fft(), plan, zero)
    }

    /// A node for frames of `n_fft` samples around the planned transform
    /// `plan`. Its fresh buffers hold `zero`.
    pub fn with_length(n_fft: usize, plan: P, zero: T) -> (node: Self)
        ensures
            node.frame_length() == n_fft,
            node.fill() == zero,
    {
        InverseRealFft {
            plan,
            n_fft,
            zero,
            irfft_input: repeat(Complex { re: zero, im: zero }, n_fft / 2 + 1),
            irfft_output: repeat(zero, n_fft),
        }
    }
}

impl<T: Copy + Send, P: ComplexToReal<T>> FftProcessor<T> for InverseRealFft<T, P> {
    fn name(&self) -> (r: &str)
        ensures
            r@ == "InverseRealFft"@,
    {
        "InverseRealFft"
    }

    fn input_spec(&self) -> (r: Vec<SignalSpec>)
        ensures
            r@.len() == 1,
            r@[0].name@ == "input"@,
            r@[0].signal_type == SignalType::RealSpectrum,
    {
        let mut specs: Vec<SignalSpec> = Vec::with_capacity(1);
        specs.push(SignalSpec::new("input", SignalType::RealSpectrum));
        specs
    }

    fn output_spec(&self) -> (r: Vec<SignalSpec>)
        ensures
            r@.len() == 1,
            r@[0].name@ == "output"@,
            r@[0].signal_type == SignalType::AudioBlock,
    {
        let mut specs: Vec<SignalSpec> = Vec::with_capacity(1);
        specs.push(SignalSpec::new("output", SignalType::AudioBlock));
        specs
    }

    fn create_output_buffers(&self, size: usize) -> (r: Vec<Frame<T>>)
        ensures
            r@.len() == 1,
            r@[0].kind() == SignalType::AudioBlock,
            r@[0].length() == Frame::<T>::length_for(SignalType::AudioBlock, self.frame_length()),
            r@[0].audio() == Some(Seq::new(self.frame_length(), |i: int| self.fill())),
    {
        let mut buffers: Vec<Frame<T>> = Vec::with_capacity(1);
        buffers.push(Frame::Audio(repeat(self.zero, self.n_fft)));
        buffers
    }

    fn allocate(&mut self, sample_rate: T)
        ensures
            final(self).frame_length() == old(self).frame_length(),
            final(self).fill() == old(self).fill(),
    {
    }

    fn resize_buffers(&mut self, sample_rate: T)
        ensures
            final(self).frame_length() == old(self).frame_length(),
            final(self).fill() == old(self).fill(),
    {
    }

    fn process(&mut self, inputs: &ProcessorInputs<'_, T>, outputs: &mut Vec<Frame<T>>) -> (r:
        Result<(), ProcessorError>)
        ensures
            final(self).frame_length() == old(self).frame_length(),
            final(self).fill() == old(self).fill(),
            final(outputs)@.len() == old(outputs)@.len(),
            forall|i: int| 1 <= i < old(outputs)@.len() ==> final(outputs)@[i] == old(outputs)@[i],
            !(inputs.frame(0) matches Some(f) && f.real_bins() is Some) ==> r is Ok && final(outputs)@ == old(outputs)@,
            r is Err ==> final(outputs)@ == old(outputs)@,
            r is Ok && (inputs.frame(0) matches Some(f) && f.real_bins() is Some) ==> old(
                outputs,
            )@.len() > 0 && final(outputs)@[0].audio() == Some(final(self).samples()),
            (inputs.frame(0) matches Some(f) && f.real_bins() is Some) ==> final(self).handed()
                == with_real_edges(inputs.frame(0).unwrap().real_bins().unwrap(), old(self).fill()),
            !(inputs.frame(0) matches Some(f) && f.real_bins() is Some) ==> final(self).handed()
                == old(self).handed(),
            r is Err ==> is_transform_failure(r) || (is_mismatch_at_0(r) && !takes_audio(
                old(outputs)@,
                final(self).samples().len(),
            )),
    {
        match inputs.input_real_spectrum(0) {
            None => Ok(()),
            Some(bins) => {
                if bins.len() != self.irfft_input.len() {
                    self.irfft_input = repeat(Complex { re: self.zero, im: self.zero }, bins.len());
                }
                copy_into(bins, &mut self.irfft_input);
                force_real_edges(&mut self.irfft_input, self.zero);
                let outcome = self.plan.process(
                    &self.irfft_input,
                    self.zero,
                    &mut self.irfft_output,
                );
                store_audio(outcome, &self.irfft_output, outputs)
            },
        }
    }
}

} // verus!
