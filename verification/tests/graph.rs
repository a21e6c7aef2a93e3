use raug_fft::builtins::transforms::{ComplexToReal, RealToComplex};
use raug_fft::frame::{Complex, Frame};
use raug_fft::graph::{ConnectError, FftGraph};
use raug_fft::processor::{
    FftProcessor, PortRef, ProcessMode, ProcessorError, ProcessorInputs,
};
use raug_fft::signal::{Fft1024, Fft64, SignalSpec, SignalType};
use raug_fft::window::normalise_window;
use raug_fft::{TransformError, TransformFault, WindowFunction};
use realfft::num_complex::Complex32;
use realfft::RealFftPlanner;
use std::sync::Arc;

struct Forward {
    plan: Arc<dyn realfft::RealToComplex<f32>>,
    input: Vec<f32>,
    output: Vec<Complex32>,
    scratch: Vec<Complex32>,
}

impl Forward {
    fn new(n: usize) -> Self {
        let plan = RealFftPlanner::<f32>::new().plan_fft_forward(n);
        let input = plan.make_input_vec();
        let output = plan.make_output_vec();
        let scratch = plan.make_scratch_vec();
        Forward { plan, input, output, scratch }
    }
}

impl RealToComplex<f32> for Forward {
    fn process(
        &mut self,
        input: &Vec<f32>,
        output: &mut Vec<Complex<f32>>,
    ) -> Result<(), TransformFault> {
        self.input.clear();
        self.input.extend_from_slice(input);
        self.plan
            .process_with_scratch(&mut self.input, &mut self.output, &mut self.scratch)
            .map_err(|e| TransformError::RealFft(e).fault())?;
        output.clear();
        for bin in self.output.iter() {
            output.push(Complex { re: bin.re, im: bin.im });
        }
        Ok(())
    }
}

struct Inverse {
    plan: Arc<dyn realfft::ComplexToReal<f32>>,
    input: Vec<Complex32>,
    output: Vec<f32>,
    scratch: Vec<Complex32>,
}

impl Inverse {
    fn new(n: usize) -> Self {
        let plan = RealFftPlanner::<f32>::new().plan_fft_inverse(n);
        let input = plan.make_input_vec();
        let output = plan.make_output_vec();
        let scratch = plan.make_scratch_vec();
        Inverse { plan, input, output, scratch }
    }
}

impl ComplexToReal<f32> for Inverse {
    fn process(
        &mut self,
        input: &Vec<Complex<f32>>,
        _zero: f32,
        output: &mut Vec<f32>,
    ) -> Result<(), TransformFault> {
        self.input.clear();
        for bin in input.iter() {
            self.input.push(Complex32::new(bin.re, bin.im));
        }
        self.plan
            .process_with_scratch(&mut self.input, &mut self.output, &mut self.scratch)
            .map_err(|e| TransformError::RealFft(e).fault())?;
        output.clear();
        output.extend_from_slice(&self.output);
        Ok(())
    }
}

/// Scales every bin of a spectrum.
struct SpectralGain {
    gain: f32,
    bins: usize,
}

impl FftProcessor<f32> for SpectralGain {
    fn name(&self) -> &str {
        "SpectralGain"
    }

    fn input_spec(&self) -> Vec<SignalSpec> {
        vec![SignalSpec::new("input", SignalType::RealSpectrum)]
    }

    fn output_spec(&self) -> Vec<SignalSpec> {
        vec![SignalSpec::new("output", SignalType::RealSpectrum)]
    }

    fn create_output_buffers(&self, _size: usize) -> Vec<Frame<f32>> {
        vec![Frame::RealSpectrum(vec![Complex { re: 0.0, im: 0.0 }; self.bins])]
    }

    fn process(
        &mut self,
        inputs: &ProcessorInputs<'_, f32>,
        outputs: &mut Vec<Frame<f32>>,
    ) -> Result<(), ProcessorError> {
        if let Some(bins) = inputs.input_real_spectrum(0) {
            let scaled: Vec<Complex<f32>> = bins
                .iter()
                .map(|b| Complex { re: b.re * self.gain, im: b.im * self.gain })
                .collect();
            outputs[0] = Frame::RealSpectrum(scaled);
        }
        Ok(())
    }
}

/// Hands its input on, and fails on the call of the given number.
struct Failing {
    calls: usize,
    fails_at: usize,
    bins: usize,
}

impl FftProcessor<f32> for Failing {
    fn name(&self) -> &str {
        "Failing"
    }

    fn input_spec(&self) -> Vec<SignalSpec> {
        vec![SignalSpec::new("input", SignalType::RealSpectrum)]
    }

    fn output_spec(&self) -> Vec<SignalSpec> {
        vec![SignalSpec::new("output", SignalType::RealSpectrum)]
    }

    fn create_output_buffers(&self, _size: usize) -> Vec<Frame<f32>> {
        vec![Frame::RealSpectrum(vec![Complex { re: 0.0, im: 0.0 }; self.bins])]
    }

    fn process(
        &mut self,
        inputs: &ProcessorInputs<'_, f32>,
        outputs: &mut Vec<Frame<f32>>,
    ) -> Result<(), ProcessorError> {
        self.calls += 1;
        if self.calls == self.fails_at {
            return Err(ProcessorError::ProcessingError("frame refused".to_string()));
        }
        if let Some(bins) = inputs.input_real_spectrum(0) {
            outputs[0] = Frame::RealSpectrum(bins.clone());
        }
        Ok(())
    }
}

/// A node whose output buffer is not the frame its port announces.
struct Misbehaving;

impl FftProcessor<f32> for Misbehaving {
    fn name(&self) -> &str {
        "Misbehaving"
    }

    fn input_spec(&self) -> Vec<SignalSpec> {
        vec![SignalSpec::new("input", SignalType::RealSpectrum)]
    }

    fn output_spec(&self) -> Vec<SignalSpec> {
        vec![SignalSpec::new("output", SignalType::RealSpectrum)]
    }

    fn create_output_buffers(&self, _size: usize) -> Vec<Frame<f32>> {
        Vec::new()
    }

    fn process(
        &mut self,
        _inputs: &ProcessorInputs<'_, f32>,
        _outputs: &mut Vec<Frame<f32>>,
    ) -> Result<(), ProcessorError> {
        Ok(())
    }
}

fn times(a: f32, b: f32) -> f32 {
    a * b
}

fn plus(a: f32, b: f32) -> f32 {
    a + b
}

fn over(a: f32, b: f32) -> f32 {
    a / b
}

fn coefficients(family: WindowFunction, n: usize) -> Vec<f32> {
    match family {
        WindowFunction::Rectangular => Vec::new(),
        WindowFunction::Hann => apodize::hanning_iter(n).map(|x| x as f32).collect(),
        WindowFunction::Hamming => apodize::hamming_iter(n).map(|x| x as f32).collect(),
        WindowFunction::Blackman => apodize::blackman_iter(n).map(|x| x as f32).collect(),
        WindowFunction::Nuttall => apodize::nuttall_iter(n).map(|x| x as f32).collect(),
        WindowFunction::Triangular => apodize::triangular_iter(n).map(|x| x as f32).collect(),
    }
}

/// The analysis and synthesis window of a graph: generated, centred, and
/// scaled for unit gain.
fn window(family: WindowFunction, n: usize, hop: usize) -> Vec<f32> {
    let mut w = family.generate(n, 1.0f32, &coefficients(family, n), &times);
    let scaled = normalise_window(
        &mut w,
        hop,
        0.0f32,
        &times,
        &plus,
        &over,
        &|a: f32, count: usize| a * count as f32,
        &|a: f32| a.sqrt(),
        &|a: f32| a == 0.0,
    );
    assert!(scaled);
    w
}

fn identity_graph_1024(hop: usize, family: WindowFunction, block: usize) -> FftGraph<f32> {
    let mut graph = FftGraph::<f32>::new::<Fft1024>(hop, window(family, 1024, hop), 0.0);
    let source = graph.add_audio_input(Forward::new(1024));
    let sink = graph.add_audio_output(Inverse::new(1024));
    assert_eq!(graph.connect(source, 0, sink, 0), Ok(()));
    graph.allocate(48000.0, block);
    graph
}

fn sine(t: usize) -> f32 {
    (2.0 * std::f32::consts::PI * 440.0 * t as f32 / 48000.0).sin()
}

/// Runs `blocks` blocks of the sine through the graph and returns, for each
/// block, what the graph wrote, or nothing where it wrote nothing.
fn run_sine(graph: &mut FftGraph<f32>, block: usize, blocks: usize) -> Vec<Option<Vec<f32>>> {
    let marker = -7.0f32;
    let mut heard = Vec::new();
    for b in 0..blocks {
        let input: Vec<f32> = (0..block).map(|i| sine(b * block + i)).collect();
        let mut out = vec![vec![marker; block]];
        let r = graph.process(&vec![input], &mut out, &times, &plus);
        assert!(r.is_ok());
        if out[0].iter().all(|x| *x == marker) {
            heard.push(None);
        } else {
            heard.push(Some(out[0].clone()));
        }
    }
    heard
}

#[test]
fn identity_sine_hann_1024_256_512() {
    let block = 512;
    let mut graph = identity_graph_1024(256, WindowFunction::Hann, block);
    let heard = run_sine(&mut graph, block, 12);
    // Two blocks pass before the first frame has left a whole block behind.
    assert!(heard[0].is_none());
    assert!(heard[1].is_none());
    // From the block on in which every sample has all its overlapping frames,
    // the output is the input, one frame late.
    for b in 4..12 {
        let out = heard[b].as_ref().expect("a block is ready");
        for i in 0..block {
            let t = b * block + i;
            let expected = sine(t - 1024);
            assert!((out[i] - expected).abs() < 1e-3, "block {b} sample {i}");
        }
    }
}

#[test]
fn identity_with_gain_after_the_graph() {
    let block = 512;
    let mut graph = identity_graph_1024(256, WindowFunction::Hann, block);
    let heard = run_sine(&mut graph, block, 8);
    for b in 4..8 {
        let out = heard[b].as_ref().expect("a block is ready");
        for i in 0..block {
            let t = b * block + i;
            let expected = 0.2 * sine(t - 1024);
            assert!((0.2 * out[i] - expected).abs() < 1e-3, "block {b} sample {i}");
        }
    }
}

#[test]
fn reconstruction_holds_for_every_tapered_window() {
    let families = [
        WindowFunction::Hann,
        WindowFunction::Hamming,
        WindowFunction::Blackman,
        WindowFunction::Nuttall,
    ];
    for family in families {
        let block = 512;
        let mut graph = identity_graph_1024(128, family, block);
        let heard = run_sine(&mut graph, block, 8);
        for b in 4..8 {
            let out = heard[b].as_ref().expect("a block is ready");
            for i in 0..block {
                let t = b * block + i;
                assert!((out[i] - sine(t - 1024)).abs() < 1e-3, "{family:?} block {b}");
            }
        }
    }
}

#[test]
fn spectral_gain_scales_the_output() {
    let block = 512;
    let hop = 256;
    let mut graph =
        FftGraph::<f32>::new::<Fft1024>(hop, window(WindowFunction::Hann, 1024, hop), 0.0);
    let source = graph.add_audio_input(Forward::new(1024));
    let gain = graph.add_processor(SpectralGain { gain: 0.5, bins: 513 });
    let sink = graph.add_audio_output(Inverse::new(1024));
    assert_eq!(graph.connect(source, 0, gain, 0), Ok(()));
    assert_eq!(graph.connect(gain, 0, sink, 0), Ok(()));
    graph.allocate(48000.0, block);
    let heard = run_sine(&mut graph, block, 8);
    for b in 4..8 {
        let out = heard[b].as_ref().expect("a block is ready");
        for i in 0..block {
            let t = b * block + i;
            assert!((out[i] - 0.5 * sine(t - 1024)).abs() < 1e-3);
        }
    }
}

#[test]
fn hop_equal_to_frame_with_rectangular_window() {
    let n = 64;
    let w = window(WindowFunction::Rectangular, n, n);
    for x in w.iter() {
        assert!((x - 1.0 / (n as f32).sqrt()).abs() < 1e-6);
    }
    let mut graph = FftGraph::<f32>::new::<Fft64>(n, w, 0.0);
    let source = graph.add_audio_input(Forward::new(n));
    let sink = graph.add_audio_output(Inverse::new(n));
    assert_eq!(graph.connect(source, 0, sink, 0), Ok(()));
    graph.allocate(48000.0, n);
    for b in 0..5 {
        let input: Vec<f32> = (0..n).map(|i| sine(b * n + i)).collect();
        let mut out = vec![vec![9.0f32; n]];
        let r = graph.process(&vec![input.clone()], &mut out, &times, &plus);
        assert!(r.is_ok());
        for i in 0..n {
            assert!((out[0][i] - input[i]).abs() < 1e-4, "block {b} sample {i}");
        }
    }
}

#[test]
fn inputs_without_outputs_leave_the_outer_blocks_alone() {
    let n = 64;
    let mut graph =
        FftGraph::<f32>::new::<Fft64>(16, window(WindowFunction::Hann, n, 16), 0.0);
    graph.add_audio_input(Forward::new(n));
    graph.add_audio_input(Forward::new(n));
    graph.allocate(48000.0, 32);
    let mut out = vec![vec![3.0f32; 32]];
    for _ in 0..6 {
        let r = graph.process(&vec![vec![1.0; 32], vec![2.0; 32]], &mut out, &times, &plus);
        assert!(r.is_ok());
        assert_eq!(out, vec![vec![3.0f32; 32]]);
    }
}

#[test]
fn graph_without_inputs_does_nothing() {
    let n = 64;
    let mut graph =
        FftGraph::<f32>::new::<Fft64>(16, window(WindowFunction::Hann, n, 16), 0.0);
    graph.add_audio_output(Inverse::new(n));
    graph.allocate(48000.0, 32);
    let mut out = vec![vec![3.0f32; 32]];
    let r = graph.process(&Vec::new(), &mut out, &times, &plus);
    assert!(r.is_ok());
    assert_eq!(out, vec![vec![3.0f32; 32]]);
    assert_eq!(graph.output_ring_len(0), Some(0));
}

#[test]
fn underrun_leaves_the_outer_block_alone() {
    let block = 512;
    let mut graph = identity_graph_1024(256, WindowFunction::Hann, block);
    let mut out = vec![vec![5.0f32; block]];
    let r = graph.process(&vec![vec![1.0; block]], &mut out, &times, &plus);
    assert!(r.is_ok());
    assert_eq!(out, vec![vec![5.0f32; block]]);
    assert_eq!(graph.input_ring_len(0), Some(512));
    assert_eq!(graph.output_ring_len(0), Some(0));
    assert_eq!(graph.handed_out(0), Some(false));
    // The second block completes one frame: one hop is ready, not yet a block.
    let r = graph.process(&vec![vec![1.0; block]], &mut out, &times, &plus);
    assert!(r.is_ok());
    assert_eq!(out, vec![vec![5.0f32; block]]);
    assert_eq!(graph.input_ring_len(0), Some(768));
    assert_eq!(graph.output_ring_len(0), Some(256));
    // The third completes two more: three hops are ready, and one block leaves.
    let r = graph.process(&vec![vec![1.0; block]], &mut out, &times, &plus);
    assert!(r.is_ok());
    assert!(out[0].iter().all(|x| *x != 5.0));
    assert_eq!(graph.input_ring_len(0), Some(768));
    assert_eq!(graph.output_ring_len(0), Some(256));
    assert_eq!(graph.handed_out(0), Some(true));
    assert_eq!(graph.handed_out(1), None);
}

#[test]
fn failing_processor_is_reported_with_its_name() {
    let n = 64;
    let mut graph = FftGraph::<f32>::new::<Fft64>(n, window(WindowFunction::Rectangular, n, n), 0.0);
    let source = graph.add_audio_input(Forward::new(n));
    let middle = graph.add_processor(Failing { calls: 0, fails_at: 3, bins: 33 });
    let sink = graph.add_audio_output(Inverse::new(n));
    assert_eq!(graph.connect(source, 0, middle, 0), Ok(()));
    assert_eq!(graph.connect(middle, 0, sink, 0), Ok(()));
    graph.allocate(48000.0, n);
    let mut out = vec![vec![0.0f32; n]];
    assert!(graph.process(&vec![vec![1.0; n]], &mut out, &times, &plus).is_ok());
    assert!(graph.process(&vec![vec![1.0; n]], &mut out, &times, &plus).is_ok());
    let before = out.clone();
    let third = graph.process(&vec![vec![1.0; n]], &mut out, &times, &plus);
    match third {
        Err(ProcessorError::SubGraphError(failure)) => {
            assert_eq!(failure.node_name, "Failing");
            match failure.error {
                ProcessorError::ProcessingError(text) => assert_eq!(text, "frame refused"),
                other => panic!("unexpected cause {other:?}"),
            }
        }
        other => panic!("unexpected outcome {other:?}"),
    }
    // A failed call hands out no block; the input has advanced by its hop.
    assert_eq!(out, before);
    assert_eq!(graph.input_ring_len(0), Some(0));
    // The fourth call goes through again.
    assert!(graph.process(&vec![vec![1.0; n]], &mut out, &times, &plus).is_ok());
}

#[test]
fn missing_output_buffer_is_reported() {
    let n = 64;
    let mut graph = FftGraph::<f32>::new::<Fft64>(n, window(WindowFunction::Rectangular, n, n), 0.0);
    graph.add_audio_input(Forward::new(n));
    let odd = graph.add_processor(Misbehaving);
    // An output that reads the frame of a node that has no output buffer.
    let sink = graph.add_audio_output(Inverse::new(n));
    assert_eq!(graph.connect(odd, 0, sink, 0), Ok(()));
    graph.allocate(48000.0, n);
    let mut out = vec![vec![0.0f32; n]];
    // The sink itself still has its buffer, so the call goes through.
    assert!(graph.process(&vec![vec![1.0; n]], &mut out, &times, &plus).is_ok());
    assert_eq!(graph.buffers_of(odd).map(|b| b.len()), Some(0));
}

#[test]
fn lockstep_and_overlap_length_after_every_call() {
    let hop = 16;
    let n = 64;
    let block = 40;
    let mut graph = FftGraph::<f32>::new::<Fft64>(hop, window(WindowFunction::Hann, n, hop), 0.0);
    let a = graph.add_audio_input(Forward::new(n));
    let _b = graph.add_audio_input(Forward::new(n));
    let sink = graph.add_audio_output(Inverse::new(n));
    assert_eq!(graph.connect(a, 0, sink, 0), Ok(()));
    graph.allocate(48000.0, block);
    assert_eq!(graph.overlap_len(0), Some(n));
    let mut out = vec![vec![0.0f32; block]];
    let mut expected_len = 0;
    for _ in 0..10 {
        let r = graph.process(&vec![vec![0.5; block], vec![0.25; block]], &mut out, &times, &plus);
        assert!(r.is_ok());
        let first = graph.input_ring_len(0).unwrap();
        let second = graph.input_ring_len(1).unwrap();
        assert_eq!(first % hop, second % hop);
        assert_eq!(first, second);
        assert!(first < n + block);
        assert!(first < n);
        // One block in, then one hop out for every frame that was complete.
        expected_len += block;
        while expected_len >= n {
            expected_len -= hop;
        }
        assert_eq!(first, expected_len);
        assert_eq!(graph.overlap_len(0), Some(n));
    }
}

#[test]
fn connecting_ports_of_different_types_is_refused() {
    let n = 64;
    let mut graph = FftGraph::<f32>::new::<Fft64>(16, window(WindowFunction::Hann, n, 16), 0.0);
    let source = graph.add_audio_input(Forward::new(n));
    let stub = source - 1;
    let sink = graph.add_audio_output(Inverse::new(n));
    // The stub puts out audio frames, the sink takes spectra.
    assert_eq!(graph.connect(stub, 0, sink, 0), Err(ConnectError::TypeMismatch));
    assert_eq!(graph.source_of(sink, 0), None);
    // The sink puts out audio frames, the transform takes audio frames.
    assert_eq!(graph.connect(sink, 0, source, 0), Ok(()));
    assert_eq!(graph.source_of(source, 0), Some(PortRef { node: sink, port: 0 }));
}

#[test]
fn connect_names_what_is_missing() {
    let n = 64;
    let mut graph = FftGraph::<f32>::new::<Fft64>(16, window(WindowFunction::Hann, n, 16), 0.0);
    let source = graph.add_audio_input(Forward::new(n));
    let sink = graph.add_audio_output(Inverse::new(n));
    assert_eq!(graph.connect(9, 0, sink, 0), Err(ConnectError::NoSuchNode));
    assert_eq!(graph.connect(source, 0, 9, 0), Err(ConnectError::NoSuchNode));
    assert_eq!(graph.connect(source, 1, sink, 0), Err(ConnectError::NoSuchOutput));
    assert_eq!(graph.connect(source, 0, sink, 1), Err(ConnectError::NoSuchInput));
    assert_eq!(graph.connect(source, 0, sink, 0), Ok(()));
}

#[test]
fn a_second_edge_into_a_port_replaces_the_first() {
    let n = 64;
    let mut graph = FftGraph::<f32>::new::<Fft64>(16, window(WindowFunction::Hann, n, 16), 0.0);
    let first = graph.add_audio_input(Forward::new(n));
    let second = graph.add_audio_input(Forward::new(n));
    let sink = graph.add_audio_output(Inverse::new(n));
    assert_eq!(graph.connect(first, 0, sink, 0), Ok(()));
    assert_eq!(graph.source_of(sink, 0), Some(PortRef { node: first, port: 0 }));
    assert_eq!(graph.connect(second, 0, sink, 0), Ok(()));
    assert_eq!(graph.source_of(sink, 0), Some(PortRef { node: second, port: 0 }));
}

#[test]
fn an_edge_that_closes_a_cycle_is_refused() {
    let n = 64;
    let mut graph = FftGraph::<f32>::new::<Fft64>(16, window(WindowFunction::Hann, n, 16), 0.0);
    let a = graph.add_processor(SpectralGain { gain: 1.0, bins: 33 });
    let b = graph.add_processor(SpectralGain { gain: 1.0, bins: 33 });
    let c = graph.add_processor(SpectralGain { gain: 1.0, bins: 33 });
    assert_eq!(graph.connect(c, 0, b, 0), Ok(()));
    assert_eq!(graph.connect(b, 0, a, 0), Ok(()));
    assert_eq!(graph.visit_path(), &vec![c, b, a]);
    assert_eq!(graph.connect(a, 0, c, 0), Err(ConnectError::Cycle));
    assert_eq!(graph.source_of(c, 0), None);
    assert_eq!(graph.visit_path(), &vec![c, b, a]);
    assert_eq!(graph.connect(a, 0, a, 0), Err(ConnectError::Cycle));
    assert_eq!(graph.source_of(a, 0), Some(PortRef { node: b, port: 0 }));
}

#[test]
fn audio_ports_are_named_by_their_index() {
    let n = 64;
    let mut graph = FftGraph::<f32>::new::<Fft64>(16, window(WindowFunction::Hann, n, 16), 0.0);
    for _ in 0..11 {
        graph.add_audio_input(Forward::new(n));
    }
    graph.add_audio_output(Inverse::new(n));
    let inputs = graph.input_spec();
    assert_eq!(inputs.len(), 11);
    assert_eq!(inputs[0].name, "0");
    assert_eq!(inputs[9].name, "9");
    assert_eq!(inputs[10].name, "10");
    assert!(inputs.iter().all(|p| p.signal_type == SignalType::Sample));
    let outputs = graph.output_spec();
    assert_eq!(outputs.len(), 1);
    assert_eq!(outputs[0].name, "0");
    assert_eq!(graph.create_output_buffers(3), vec![vec![0.0f32; 3]]);
}

#[test]
fn an_audio_input_is_a_stub_driving_a_transform() {
    let n = 64;
    let mut graph = FftGraph::<f32>::new::<Fft64>(16, window(WindowFunction::Hann, n, 16), 0.0);
    assert_eq!(graph.fft_length(), 64);
    assert_eq!(graph.hop_length(), 16);
    let source = graph.add_audio_input(Forward::new(n));
    assert_eq!(source, 1);
    assert_eq!(graph.num_nodes(), 2);
    assert_eq!(graph.num_audio_inputs(), 1);
    assert_eq!(graph.source_of(source, 0), Some(PortRef { node: 0, port: 0 }));
    assert_eq!(graph.visit_path(), &vec![0, 1]);
    let stub = graph.node(0).unwrap();
    assert_eq!(stub.name(), "Null");
    assert_eq!(stub.num_inputs(), 0);
    assert_eq!(stub.output_type(0), Some(SignalType::AudioBlock));
    let bridge = graph.node(1).unwrap();
    assert_eq!(bridge.name(), "RealFft");
    assert_eq!(bridge.input_type(0), Some(SignalType::AudioBlock));
    assert_eq!(bridge.input_name(0), Some("input"));
    assert_eq!(bridge.output_type(0), Some(SignalType::RealSpectrum));
    assert_eq!(bridge.output_name(0), Some("output"));
    assert_eq!(bridge.output_type(1), None);
    let sink = graph.add_audio_output(Inverse::new(n));
    assert_eq!(graph.node(sink).unwrap().name(), "InverseRealFft");
    assert_eq!(graph.num_audio_outputs(), 1);
    graph.resize_buffers(44100.0, 128);
    assert_eq!(graph.block_size(), 128);
}

#[test]
fn frames_to_run_counts_the_frames_of_the_next_call() {
    let block = 512;
    let mut graph = identity_graph_1024(256, WindowFunction::Hann, block);
    let mut out = vec![vec![0.0f32; block]];
    // 0 + 512 samples: no frame
    assert_eq!(graph.frames_to_run(), Some(0));
    assert!(graph.process(&vec![vec![1.0; block]], &mut out, &times, &plus).is_ok());
    // 512 + 512 samples: one frame
    assert_eq!(graph.frames_to_run(), Some(1));
    assert!(graph.process(&vec![vec![1.0; block]], &mut out, &times, &plus).is_ok());
    // 768 + 512 samples: two frames
    assert_eq!(graph.frames_to_run(), Some(2));
    let empty = FftGraph::<f32>::new::<Fft64>(16, window(WindowFunction::Hann, 64, 16), 0.0);
    assert_eq!(empty.frames_to_run(), Some(0));
}

#[test]
fn one_frame_moves_one_hop_in_and_one_hop_out() {
    let n = 64;
    let hop = 16;
    let mut graph = FftGraph::<f32>::new::<Fft64>(hop, window(WindowFunction::Hann, n, hop), 0.0);
    let source = graph.add_audio_input(Forward::new(n));
    let sink = graph.add_audio_output(Inverse::new(n));
    assert_eq!(graph.connect(source, 0, sink, 0), Ok(()));
    graph.allocate(48000.0, 100);
    let mut out = vec![vec![0.0f32; 100]];
    // 100 samples come in; frames start at 0, 16 and 32; 52 samples stay
    assert!(graph.process(&vec![vec![1.0; 100]], &mut out, &times, &plus).is_ok());
    assert_eq!(graph.input_ring_len(0), Some(52));
    assert_eq!(graph.output_ring_len(0), Some(48));
    // with 64 samples waiting one more frame can run by hand
    assert!(graph.process(&vec![vec![1.0; 100]], &mut out, &times, &plus).is_ok());
    assert_eq!(graph.input_ring_len(0), Some(56));
    let before = graph.output_ring_len(0).unwrap();
    graph.resize_buffers(48000.0, 8);
    assert!(graph.process(&vec![vec![1.0; 8]], &mut vec![vec![0.0f32; 8]], &times, &plus).is_ok());
    assert_eq!(graph.input_ring_len(0), Some(48));
    assert_eq!(graph.output_ring_len(0), Some(before + 16 - 8));
    assert_eq!(graph.overlap_len(0), Some(n));
}

#[test]
fn a_single_node_can_be_processed() {
    let n = 64;
    let mut graph = FftGraph::<f32>::new::<Fft64>(16, window(WindowFunction::Hann, n, 16), 0.0);
    let good = graph.add_processor(SpectralGain { gain: 2.0, bins: 33 });
    let bad = graph.add_processor(Failing { calls: 0, fails_at: 1, bins: 33 });
    assert!(graph.process_node(good).is_ok());
    match graph.process_node(bad) {
        Err(failure) => assert_eq!(failure.node_name, "Failing"),
        Ok(_) => panic!("the node fails on its first call"),
    }
    assert!(graph.process_node(bad).is_ok());
    assert_eq!(graph.buffers_of(good).map(|b| b.len()), Some(1));
    assert!(graph.buffers_of(7).is_none());
    assert!(graph.node(7).is_none());
    assert_eq!(graph.input_ring_len(0), None);
    assert_eq!(graph.output_ring_len(0), None);
    assert_eq!(graph.overlap_len(0), None);
    assert_eq!(graph.window().len(), 64);
}

#[test]
fn a_node_without_buffers_does_not_disturb_the_graph() {
    let n = 64;
    let mut graph = FftGraph::<f32>::new::<Fft64>(n, window(WindowFunction::Rectangular, n, n), 0.0);
    // a node that never has an output buffer
    let odd = graph.add_processor(Misbehaving);
    graph.add_audio_input(Forward::new(n));
    graph.allocate(48000.0, n);
    let mut out = vec![vec![4.0f32; n]];
    assert!(graph.process(&vec![vec![1.0; n]], &mut out, &times, &plus).is_ok());
    assert_eq!(graph.buffers_of(odd).map(|b| b.len()), Some(0));
    assert_eq!(out, vec![vec![4.0f32; n]]);
}

#[test]
fn a_node_is_handed_the_frames_its_edges_name() {
    let n = 64;
    let mut graph: FftGraph<f32> =
        FftGraph::new::<Fft64>(16, window(WindowFunction::Hann, n, 16), 0.0);
    let source = graph.add_audio_input(Forward::new(n));
    let gain = graph.add_processor(SpectralGain { gain: 2.0, bins: 33 });
    assert_eq!(graph.connect(source, 0, gain, 0), Ok(()));
    graph.allocate(44100.0, 24);
    let inputs = graph.inputs_of(gain);
    assert_eq!(inputs.num_inputs(), 1);
    assert_eq!(inputs.proc_env().sample_rate, 44100.0);
    assert_eq!(inputs.proc_env().block_size, 24);
    assert_eq!(inputs.proc_env().mode, ProcessMode::Block);
    // the frame is the one in output buffer 0 of the transform node
    let handed = inputs.input_real_spectrum(0).expect("the input is driven");
    assert_eq!(handed.len(), 33);
    let held = graph.buffers_of(source).unwrap()[0].as_real_spectrum().unwrap();
    assert!(std::ptr::eq(handed, held));
    assert!(inputs.input(1).is_none());
    // the stub has no inputs, the transform reads the stub
    assert_eq!(graph.inputs_of(source - 1).num_inputs(), 0);
    assert!(graph.inputs_of(source).input_audio(0).is_some());
    // a node that nothing drives is handed nothing
    let alone = graph.add_processor(SpectralGain { gain: 1.0, bins: 33 });
    assert!(graph.inputs_of(alone).input(0).is_none());
}

#[test]
fn allocating_gives_every_node_the_buffers_of_its_processor() {
    let n = 64;
    let mut graph: FftGraph<f32> =
        FftGraph::new::<Fft64>(16, window(WindowFunction::Hann, n, 16), 0.0);
    let source = graph.add_audio_input(Forward::new(n));
    let gain = graph.add_processor(SpectralGain { gain: 2.0, bins: 7 });
    let sink = graph.add_audio_output(Inverse::new(n));
    // added nodes hold one frame per output already
    assert_eq!(graph.buffers_of(gain).unwrap().len(), 1);
    assert_eq!(graph.buffers_of(gain).unwrap()[0].len(), 7);
    graph.allocate(48000.0, 32);
    assert_eq!(graph.buffers_of(source - 1).unwrap()[0].as_audio(), Some(&vec![0.0; 64]));
    assert_eq!(graph.buffers_of(source).unwrap()[0].signal_type(), SignalType::RealSpectrum);
    assert_eq!(graph.buffers_of(source).unwrap()[0].len(), 33);
    assert_eq!(graph.buffers_of(gain).unwrap()[0].len(), 7);
    assert_eq!(graph.buffers_of(sink).unwrap()[0].as_audio(), Some(&vec![0.0; 64]));
    assert_eq!(graph.input_ring_len(0), Some(0));
    assert_eq!(graph.output_ring_len(0), Some(0));
    assert_eq!(graph.overlap_len(0), Some(64));
}

#[test]
fn a_failure_keeps_the_hops_of_the_frames_that_ran() {
    let n = 64;
    let hop = 16;
    let mut graph: FftGraph<f32> =
        FftGraph::new::<Fft64>(hop, window(WindowFunction::Hann, n, hop), 0.0);
    let source = graph.add_audio_input(Forward::new(n));
    let middle = graph.add_processor(Failing { calls: 0, fails_at: 3, bins: 33 });
    let sink = graph.add_audio_output(Inverse::new(n));
    assert_eq!(graph.connect(source, 0, middle, 0), Ok(()));
    assert_eq!(graph.connect(middle, 0, sink, 0), Ok(()));
    graph.allocate(48000.0, 128);
    // 128 samples are five frames; the third fails after taking its hop
    let mut out = vec![vec![8.0f32; 128]];
    let r = graph.process(&vec![vec![1.0; 128]], &mut out, &times, &plus);
    assert!(matches!(r, Err(ProcessorError::SubGraphError(_))));
    assert_eq!(graph.input_ring_len(0), Some(128 - 3 * hop));
    assert_eq!(graph.output_ring_len(0), Some(2 * hop));
    assert_eq!(graph.overlap_len(0), Some(n));
    assert_eq!(out, vec![vec![8.0f32; 128]]);
}

#[test]
fn a_graph_is_made_from_a_window_table() {
    let n = 64;
    let hop = 16;
    let table = WindowFunction::Hann.generate(n, 1.0f32, &coefficients(WindowFunction::Hann, n), &times);
    let made: Option<FftGraph<f32>> = FftGraph::from_table::<Fft64, _, _, _, _, _, _>(
        hop,
        table,
        0.0,
        &times,
        &plus,
        &over,
        &|a: f32, count: usize| a * count as f32,
        &|a: f32| a.sqrt(),
        &|a: f32| a == 0.0,
    );
    let graph = made.expect("a Hann window has energy");
    assert_eq!(graph.window(), &window(WindowFunction::Hann, n, hop));
    assert_eq!(graph.fft_length(), 64);
    assert_eq!(graph.hop_length(), 16);
    assert_eq!(graph.num_nodes(), 0);
    let none: Option<FftGraph<f32>> = FftGraph::from_table::<Fft64, _, _, _, _, _, _>(
        hop,
        vec![0.0; 64],
        0.0,
        &times,
        &plus,
        &over,
        &|a: f32, count: usize| a * count as f32,
        &|a: f32| a.sqrt(),
        &|a: f32| a == 0.0,
    );
    assert!(none.is_none());
}

#[test]
fn the_staged_frame_is_the_windowed_head_of_the_ring() {
    let n = 64;
    // every coefficient of this window is one eighth
    let mut graph: FftGraph<f32> =
        FftGraph::new::<Fft64>(32, window(WindowFunction::Rectangular, n, n), 0.0);
    let source = graph.add_audio_input(Forward::new(n));
    assert_eq!(graph.staged_frame(0), Some(&vec![0.0f32; 64]));
    assert!(graph.staged_frame(1).is_none());
    // a fresh stub holds a frame already, so frames can run before `allocate`
    graph.resize_buffers(48000.0, 96);
    let input: Vec<f32> = (0..96).map(|i| (8 * i) as f32).collect();
    let r = graph.process(&vec![input.clone()], &mut Vec::new(), &times, &plus);
    assert!(r.is_ok());
    // frames start at sample 0 and at sample 32; the second was staged last
    let expected: Vec<f32> = (32..96).map(|i| i as f32).collect();
    assert_eq!(graph.staged_frame(0), Some(&expected));
    assert_eq!(graph.input_ring_len(0), Some(32));
    // the transform node was handed that frame
    let bins = graph.buffers_of(source).unwrap()[0].as_real_spectrum().unwrap();
    let sum: f32 = expected.iter().sum();
    assert!((bins[0].re - sum).abs() < 1e-2);
}
