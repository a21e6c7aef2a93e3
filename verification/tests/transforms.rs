use raug_fft::builtins::transforms::{
    force_real_edges, store_audio, store_spectrum, transform_failure, ComplexToReal,
    InverseRealFft, RealFft, RealToComplex,
};
use raug_fft::builtins::util::Null;
use raug_fft::frame::{Complex, Frame};
use raug_fft::processor::{
    FftProcessor, PortRef, ProcEnv, ProcessMode, ProcessorError, ProcessorInputs,
};
use raug_fft::signal::{Fft128, Fft64, SignalType};
use raug_fft::{TransformError, TransformFault};

fn bin(re: i64, im: i64) -> Complex<i64> {
    Complex { re, im }
}

fn pairs(bins: &Vec<Complex<i64>>) -> Vec<(i64, i64)> {
    bins.iter().map(|b| (b.re, b.im)).collect()
}

/// Stands for a transform: bin `i` is sample `i` and its double.
struct Doubling {
    fail: bool,
}

impl RealToComplex<i64> for Doubling {
    fn process(
        &mut self,
        input: &Vec<i64>,
        output: &mut Vec<Complex<i64>>,
    ) -> Result<(), TransformFault> {
        if self.fail {
            return Err(TransformFault::InputBuffer(4, 3));
        }
        output.clear();
        for x in input.iter().take(input.len() / 2 + 1) {
            output.push(bin(*x, 2 * *x));
        }
        Ok(())
    }
}

/// Stands for an inverse transform: the real parts, then the imaginary parts.
struct Unfolding {
    samples: usize,
}

impl ComplexToReal<i64> for Unfolding {
    fn process(
        &mut self,
        input: &Vec<Complex<i64>>,
        _zero: i64,
        output: &mut Vec<i64>,
    ) -> Result<(), TransformFault> {
        if input.len() != self.samples / 2 + 1 {
            return Err(TransformFault::InputBuffer(self.samples / 2 + 1, input.len()));
        }
        output.clear();
        for b in input.iter() {
            output.push(b.re);
        }
        for b in input.iter().take(self.samples - input.len()) {
            output.push(b.im);
        }
        Ok(())
    }
}

fn env() -> ProcEnv<i64> {
    ProcEnv { sample_rate: 0, block_size: 0, mode: ProcessMode::Block }
}

#[test]
fn the_edge_bins_are_made_real() {
    let mut bins = vec![bin(1, 2), bin(3, 4), bin(5, 6), bin(7, 8)];
    force_real_edges(&mut bins, 0);
    assert_eq!(pairs(&bins), vec![(1, 0), (3, 4), (5, 6), (7, 0)]);
    let mut one = vec![bin(1, 2)];
    force_real_edges(&mut one, 9);
    assert_eq!(pairs(&one), vec![(1, 9)]);
    let mut none: Vec<Complex<i64>> = Vec::new();
    force_real_edges(&mut none, 0);
    assert!(none.is_empty());
}

#[test]
fn a_failed_transform_is_reported_in_its_own_words() {
    match transform_failure(TransformFault::InputBuffer(4, 3)) {
        ProcessorError::ProcessingError(text) => {
            assert_eq!(text, "FFT error: Wrong length of input, expected 4, got 3");
        }
        other => panic!("unexpected error {other:?}"),
    }
    let error = TransformError::RealFft(realfft::FftError::OutputBuffer(8, 2));
    assert_eq!(error.message(), "FFT error: Wrong length of output, expected 8, got 2");
}

#[test]
fn store_spectrum_writes_only_into_a_matching_buffer() {
    let bins = vec![bin(1, 1), bin(2, 2)];
    let mut outputs = vec![Frame::RealSpectrum(vec![bin(0, 0); 2]), Frame::Audio(vec![5])];
    assert!(store_spectrum(Ok(()), &bins, &mut outputs).is_ok());
    assert_eq!(pairs(outputs[0].as_real_spectrum().unwrap()), vec![(1, 1), (2, 2)]);
    assert_eq!(outputs[1].as_audio(), Some(&vec![5]));

    // a buffer of another length
    let mut outputs = vec![Frame::RealSpectrum(vec![bin(0, 0); 3])];
    assert!(matches!(
        store_spectrum(Ok(()), &bins, &mut outputs),
        Err(ProcessorError::OutputSpecMismatch(0))
    ));
    assert_eq!(outputs[0].len(), 3);
    // a buffer of another type
    let mut outputs = vec![Frame::ComplexSpectrum(vec![bin(0, 0); 2])];
    assert!(matches!(
        store_spectrum(Ok(()), &bins, &mut outputs),
        Err(ProcessorError::OutputSpecMismatch(0))
    ));
    // no buffer
    let mut outputs: Vec<Frame<i64>> = Vec::new();
    assert!(matches!(
        store_spectrum(Ok(()), &bins, &mut outputs),
        Err(ProcessorError::OutputSpecMismatch(0))
    ));
    // a failed transform
    let mut outputs = vec![Frame::RealSpectrum(vec![bin(0, 0); 2])];
    let failed = Err(TransformFault::ScratchBuffer(2, 1));
    assert!(matches!(
        store_spectrum(failed, &bins, &mut outputs),
        Err(ProcessorError::ProcessingError(_))
    ));
    assert_eq!(pairs(outputs[0].as_real_spectrum().unwrap()), vec![(0, 0), (0, 0)]);
}

#[test]
fn store_audio_writes_only_into_a_matching_buffer() {
    let samples = vec![4, 5, 6];
    let mut outputs = vec![Frame::Audio(vec![0; 3])];
    assert!(store_audio(Ok(()), &samples, &mut outputs).is_ok());
    assert_eq!(outputs[0].as_audio(), Some(&vec![4, 5, 6]));
    let mut outputs = vec![Frame::Audio(vec![0; 2])];
    assert!(matches!(
        store_audio(Ok(()), &samples, &mut outputs),
        Err(ProcessorError::OutputSpecMismatch(0))
    ));
    assert_eq!(outputs[0].as_audio(), Some(&vec![0, 0]));
    let mut outputs = vec![Frame::RealSpectrum(vec![bin(0, 0); 3])];
    assert!(matches!(
        store_audio(Ok(()), &samples, &mut outputs),
        Err(ProcessorError::OutputSpecMismatch(0))
    ));
    let failed = Err(TransformFault::InputValues(true, false));
    let mut outputs = vec![Frame::Audio(vec![0; 3])];
    match store_audio(failed, &samples, &mut outputs) {
        Err(ProcessorError::ProcessingError(text)) => {
            assert_eq!(text, "FFT error: Imaginary part of first value was non-zero.");
        }
        other => panic!("unexpected outcome {other:?}"),
    }
}

#[test]
fn the_stub_has_one_audio_output_and_does_nothing() {
    let mut stub = Null::<i64>::new::<Fft64>(3);
    assert_eq!(stub.name(), "Null");
    assert!(stub.input_spec().is_empty());
    let ports = stub.output_spec();
    assert_eq!(ports.len(), 1);
    assert_eq!(ports[0].name, "output");
    assert_eq!(ports[0].signal_type, SignalType::AudioBlock);
    let mut buffers = stub.create_output_buffers(1);
    assert_eq!(buffers.len(), 1);
    assert_eq!(buffers[0].as_audio(), Some(&vec![3; 64]));
    let routes = Vec::new();
    let none = Vec::new();
    let inputs = ProcessorInputs::new(&routes, &none, env());
    assert!(stub.process(&inputs, &mut buffers).is_ok());
    assert_eq!(buffers[0].as_audio(), Some(&vec![3; 64]));
    let other = Null::<i64>::with_length(128, 0);
    assert_eq!(other.create_output_buffers(0)[0].len(), 128);
}

#[test]
fn the_forward_bridge_transforms_its_audio_input() {
    let mut bridge = RealFft::<i64, Doubling>::new::<Fft64>(Doubling { fail: false }, 0);
    assert_eq!(bridge.name(), "RealFft");
    assert_eq!(bridge.input_spec()[0].signal_type, SignalType::AudioBlock);
    assert_eq!(bridge.input_spec()[0].name, "input");
    assert_eq!(bridge.output_spec()[0].signal_type, SignalType::RealSpectrum);
    let mut outputs = bridge.create_output_buffers(1);
    assert_eq!(outputs.len(), 1);
    assert_eq!(outputs[0].signal_type(), SignalType::RealSpectrum);
    assert_eq!(outputs[0].len(), 33);

    let upstream = vec![vec![Frame::Audio((0..64).collect())]];
    let routes = vec![Some(PortRef { node: 0, port: 0 })];
    let inputs = ProcessorInputs::new(&routes, &upstream, env());
    assert!(bridge.process(&inputs, &mut outputs).is_ok());
    let bins = outputs[0].as_real_spectrum().unwrap();
    assert_eq!(bins.len(), 33);
    assert_eq!((bins[0].re, bins[0].im), (0, 0));
    assert_eq!((bins[32].re, bins[32].im), (32, 64));

    // an input that is not driven is skipped
    let routes = vec![None];
    let inputs = ProcessorInputs::new(&routes, &upstream, env());
    let mut untouched = bridge.create_output_buffers(1);
    assert!(bridge.process(&inputs, &mut untouched).is_ok());
    assert_eq!(pairs(untouched[0].as_real_spectrum().unwrap()), vec![(0, 0); 33]);
}

#[test]
fn the_forward_bridge_hands_a_failure_on() {
    let mut bridge = RealFft::<i64, Doubling>::with_length(64, Doubling { fail: true }, 0);
    let mut outputs = bridge.create_output_buffers(1);
    let upstream = vec![vec![Frame::Audio(vec![1; 64])]];
    let routes = vec![Some(PortRef { node: 0, port: 0 })];
    let inputs = ProcessorInputs::new(&routes, &upstream, env());
    match bridge.process(&inputs, &mut outputs) {
        Err(ProcessorError::ProcessingError(text)) => {
            assert_eq!(text, "FFT error: Wrong length of input, expected 4, got 3");
        }
        other => panic!("unexpected outcome {other:?}"),
    }
}

#[test]
fn the_inverse_bridge_makes_the_edge_bins_real_first() {
    let mut bridge =
        InverseRealFft::<i64, Unfolding>::new::<Fft128>(Unfolding { samples: 128 }, 0);
    assert_eq!(bridge.name(), "InverseRealFft");
    assert_eq!(bridge.input_spec()[0].signal_type, SignalType::RealSpectrum);
    assert_eq!(bridge.output_spec()[0].signal_type, SignalType::AudioBlock);
    let mut outputs = bridge.create_output_buffers(1);
    assert_eq!(outputs[0].as_audio(), Some(&vec![0; 128]));

    let spectrum: Vec<Complex<i64>> = (0..65).map(|i| bin(i, 100 + i)).collect();
    let upstream = vec![vec![Frame::RealSpectrum(spectrum)]];
    let routes = vec![Some(PortRef { node: 0, port: 0 })];
    let inputs = ProcessorInputs::new(&routes, &upstream, env());
    assert!(bridge.process(&inputs, &mut outputs).is_ok());
    let samples = outputs[0].as_audio().unwrap();
    assert_eq!(samples.len(), 128);
    // real parts
    assert_eq!(samples[0], 0);
    assert_eq!(samples[64], 64);
    // imaginary parts: the first was made real, the others kept
    assert_eq!(samples[65], 0);
    assert_eq!(samples[66], 101);
    assert_eq!(samples[127], 162);
}

#[test]
fn the_inverse_bridge_reports_a_spectrum_of_the_wrong_length() {
    let mut bridge = InverseRealFft::<i64, Unfolding>::with_length(64, Unfolding { samples: 64 }, 0);
    let mut outputs = bridge.create_output_buffers(1);
    let upstream = vec![vec![Frame::RealSpectrum(vec![bin(1, 1); 10])]];
    let routes = vec![Some(PortRef { node: 0, port: 0 })];
    let inputs = ProcessorInputs::new(&routes, &upstream, env());
    match bridge.process(&inputs, &mut outputs) {
        Err(ProcessorError::ProcessingError(text)) => {
            assert_eq!(text, "FFT error: Wrong length of input, expected 33, got 10");
        }
        other => panic!("unexpected outcome {other:?}"),
    }
    assert_eq!(outputs[0].as_audio(), Some(&vec![0; 64]));
    // an audio frame at the input counts as no input
    let upstream = vec![vec![Frame::Audio(vec![1; 64])]];
    let inputs = ProcessorInputs::new(&routes, &upstream, env());
    assert!(bridge.process(&inputs, &mut outputs).is_ok());
    assert_eq!(outputs[0].as_audio(), Some(&vec![0; 64]));
}

#[test]
fn every_fault_has_its_message() {
    assert_eq!(
        TransformFault::InputBuffer(1024, 7).message(),
        "FFT error: Wrong length of input, expected 1024, got 7"
    );
    assert_eq!(
        TransformFault::OutputBuffer(0, 513).message(),
        "FFT error: Wrong length of output, expected 0, got 513"
    );
    assert_eq!(
        TransformFault::ScratchBuffer(20, 3).message(),
        "FFT error: Scratch buffer of size 3 is too small, must be at least 20 long"
    );
    assert_eq!(
        TransformFault::InputValues(true, false).message(),
        "FFT error: Imaginary part of first value was non-zero."
    );
    assert_eq!(
        TransformFault::InputValues(false, true).message(),
        "FFT error: Imaginary part of last value was non-zero."
    );
    assert_eq!(
        TransformFault::InputValues(true, true).message(),
        "FFT error: Imaginary parts of both first and last values were non-zero."
    );
    assert_eq!(
        TransformFault::InputValues(false, false).message(),
        "FFT error: No imaginary part was non-zero."
    );
}

#[test]
fn an_error_of_the_transform_is_taken_apart() {
    let cases = [
        (realfft::FftError::InputBuffer(4, 3), TransformFault::InputBuffer(4, 3)),
        (realfft::FftError::OutputBuffer(8, 2), TransformFault::OutputBuffer(8, 2)),
        (realfft::FftError::ScratchBuffer(5, 1), TransformFault::ScratchBuffer(5, 1)),
        (realfft::FftError::InputValues(true, false), TransformFault::InputValues(true, false)),
        (realfft::FftError::InputValues(false, true), TransformFault::InputValues(false, true)),
        (realfft::FftError::InputValues(true, true), TransformFault::InputValues(true, true)),
        (realfft::FftError::InputValues(false, false), TransformFault::InputValues(false, false)),
    ];
    for (error, fault) in cases {
        let wrapped = TransformError::RealFft(error);
        assert_eq!(wrapped.fault(), fault);
        assert_eq!(wrapped.message(), fault.message());
    }
    // the messages are the transform's own words, wherever it has any
    let own = realfft::FftError::ScratchBuffer(20, 3).to_string();
    assert_eq!(TransformFault::ScratchBuffer(20, 3).message(), format!("FFT error: {own}"));
    let own = realfft::FftError::InputValues(true, true).to_string();
    assert_eq!(TransformFault::InputValues(true, true).message(), format!("FFT error: {own}"));
}

#[test]
fn fresh_bridge_buffers_hold_the_fill_value() {
    let forward = RealFft::<i64, Doubling>::with_length(64, Doubling { fail: false }, 7);
    let buffers = forward.create_output_buffers(1);
    assert_eq!(pairs(buffers[0].as_real_spectrum().unwrap()), vec![(7, 7); 33]);
    let inverse = InverseRealFft::<i64, Unfolding>::with_length(64, Unfolding { samples: 64 }, 7);
    let buffers = inverse.create_output_buffers(1);
    assert_eq!(buffers[0].as_audio(), Some(&vec![7; 64]));
}
