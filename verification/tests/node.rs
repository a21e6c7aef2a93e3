use raug_fft::frame::Frame;
use raug_fft::node::{keep_count, name_failure, FftInput, FftOutput, FftProcessorNode};
use raug_fft::processor::{
    sub_graph_outcome, FftProcessor, PortRef, ProcEnv, ProcessMode, ProcessNodeError,
    ProcessorError, ProcessorInputs,
};
use raug_fft::signal::{SignalSpec, SignalType};

fn times(a: i64, b: i64) -> i64 {
    a * b
}

fn plus(a: i64, b: i64) -> i64 {
    a + b
}

#[test]
fn input_takes_in_only_the_block() {
    let mut input = FftInput::<i64>::new(4, 0);
    assert_eq!(input.len(), 0);
    assert_eq!(input.time_domain(), &vec![0, 0, 0, 0]);
    input.ingest(&vec![1, 2, 3, 4, 5, 6], 3);
    assert_eq!(input.len(), 3);
    input.ingest(&vec![7, 8], 2);
    assert_eq!(input.len(), 5);
    input.ingest(&vec![9], 0);
    assert_eq!(input.len(), 5);
}

#[test]
fn staging_multiplies_the_first_frame_by_the_window() {
    let mut input = FftInput::<i64>::new(4, 0);
    input.ingest(&vec![1, 2, 3, 4, 5, 6], 6);
    input.stage_frame(&vec![10, 20, 30, 40], &times);
    assert_eq!(input.time_domain(), &vec![10, 40, 90, 160]);
    assert_eq!(input.len(), 6);
    input.advance(2);
    assert_eq!(input.len(), 4);
    input.stage_frame(&vec![10, 20, 30, 40], &times);
    assert_eq!(input.time_domain(), &vec![30, 80, 150, 240]);
    input.advance(4);
    assert_eq!(input.len(), 0);
}

#[test]
fn overlap_add_sums_windowed_frames_and_emits_hops() {
    let mut output = FftOutput::<i64>::new(4, 0);
    assert_eq!(output.overlap_len(), 4);
    assert_eq!(output.len(), 0);
    let window = vec![1, 2, 3, 4];
    // overlap: 0 0 0 0 + (1 1 1 1 * 1 2 3 4) = 1 2 3 4
    output.overlap_add(&vec![1, 1, 1, 1], &window, &times, &plus);
    // the hop 1 2 leaves, 3 4 0 0 stays
    output.emit_hop(2, 0);
    assert_eq!(output.len(), 2);
    assert_eq!(output.overlap_len(), 4);
    // overlap: 3 4 0 0 + (10 10 10 10 * 1 2 3 4) = 13 24 30 40
    output.overlap_add(&vec![10, 10, 10, 10], &window, &times, &plus);
    output.emit_hop(2, 0);
    assert_eq!(output.len(), 4);
    let mut block = vec![-1, -1, -1, -1, -1];
    assert!(output.drain_block(3, &mut block));
    assert_eq!(block, vec![1, 2, 13, -1, -1]);
    assert_eq!(output.len(), 1);
    // an underrun changes neither the ring buffer nor the block
    assert!(!output.drain_block(2, &mut block));
    assert_eq!(block, vec![1, 2, 13, -1, -1]);
    assert_eq!(output.len(), 1);
    assert!(output.drain_block(1, &mut block));
    assert_eq!(block, vec![24, 2, 13, -1, -1]);
    // what was left of the overlap buffer: 30 40 0 0
    output.emit_hop(4, 0);
    let mut rest = vec![0; 4];
    assert!(output.drain_block(4, &mut rest));
    assert_eq!(rest, vec![30, 40, 0, 0]);
    assert_eq!(output.overlap_len(), 4);
}

#[test]
fn emitting_a_whole_frame_empties_the_overlap_buffer() {
    let mut output = FftOutput::<i64>::new(2, 7);
    output.overlap_add(&vec![1, 2], &vec![3, 4], &times, &plus);
    output.emit_hop(2, 0);
    let mut block = vec![0, 0];
    assert!(output.drain_block(2, &mut block));
    // the buffer started out as 7 7
    assert_eq!(block, vec![10, 15]);
    output.emit_hop(2, 0);
    assert!(output.drain_block(2, &mut block));
    assert_eq!(block, vec![0, 0]);
    assert!(output.drain_block(0, &mut block));
}

/// Sums its two audio inputs. Fails when told to.
struct Mixer {
    fail: bool,
    allocated: usize,
    resized: usize,
}

impl FftProcessor<i64> for Mixer {
    fn name(&self) -> &str {
        "Mixer"
    }

    fn input_spec(&self) -> Vec<SignalSpec> {
        vec![
            SignalSpec::new("left", SignalType::AudioBlock),
            SignalSpec::new("right", SignalType::AudioBlock),
        ]
    }

    fn output_spec(&self) -> Vec<SignalSpec> {
        vec![SignalSpec::new("sum", SignalType::AudioBlock)]
    }

    fn create_output_buffers(&self, size: usize) -> Vec<Frame<i64>> {
        vec![Frame::Audio(vec![0; 2 + size])]
    }

    fn allocate(&mut self, _sample_rate: i64) {
        self.allocated += 1;
    }

    fn resize_buffers(&mut self, _sample_rate: i64) {
        self.resized += 1;
    }

    fn process(
        &mut self,
        inputs: &ProcessorInputs<'_, i64>,
        outputs: &mut Vec<Frame<i64>>,
    ) -> Result<(), ProcessorError> {
        if self.fail {
            return Err(ProcessorError::ProcessingError("no".to_string()));
        }
        let left = inputs.input_audio(0);
        let right = inputs.input_audio(1);
        let mut sum = vec![0; 2];
        for i in 0..2 {
            sum[i] = left.map_or(0, |v| v[i]) + right.map_or(0, |v| v[i]);
        }
        outputs[0] = Frame::Audio(sum);
        Ok(())
    }
}

#[test]
fn node_caches_what_the_processor_declares() {
    let mut node = FftProcessorNode::new(Mixer { fail: false, allocated: 0, resized: 0 });
    assert_eq!(node.name(), "Mixer");
    assert_eq!(node.num_inputs(), 2);
    assert_eq!(node.num_outputs(), 1);
    assert_eq!(node.input_spec().len(), 2);
    assert_eq!(node.output_spec()[0].name, "sum");
    assert_eq!(node.input_name(1), Some("right"));
    assert_eq!(node.input_name(2), None);
    assert_eq!(node.output_name(0), Some("sum"));
    assert_eq!(node.input_type(0), Some(SignalType::AudioBlock));
    assert_eq!(node.input_type(2), None);
    assert_eq!(node.output_type(0), Some(SignalType::AudioBlock));
    assert_eq!(node.output_type(1), None);
    assert_eq!(node.processor().name(), "Mixer");
    // Made for size 0, then allocated for one frame.
    assert_eq!(node.outputs()[0].len(), 2);
    node.allocate(48000);
    assert_eq!(node.outputs()[0].len(), 3);
    node.resize_buffers(44100);
    assert_eq!(node.outputs()[0].len(), 3);
    node.processor_mut().allocate(1);
    let mut taken = Vec::new();
    node.swap_outputs(&mut taken);
    assert_eq!(taken.len(), 1);
    assert_eq!(node.outputs().len(), 0);
}

#[test]
fn node_reads_the_frames_that_its_routes_lead_to() {
    let mut node = FftProcessorNode::new(Mixer { fail: false, allocated: 0, resized: 0 });
    let buffers = vec![
        vec![Frame::Audio(vec![1, 2]), Frame::RealSpectrum(Vec::new())],
        vec![Frame::Audio(vec![10, 20])],
    ];
    let env = ProcEnv { sample_rate: 48000, block_size: 2, mode: ProcessMode::Block };
    let routes = vec![Some(PortRef { node: 0, port: 0 }), Some(PortRef { node: 1, port: 0 })];
    let inputs = ProcessorInputs::new(&routes, &buffers, env);
    assert_eq!(inputs.num_inputs(), 2);
    assert_eq!(inputs.proc_env().block_size, 2);
    assert_eq!(inputs.proc_env().mode, ProcessMode::Block);
    assert!(node.process(&inputs).is_ok());
    assert_eq!(node.outputs()[0].as_audio(), Some(&vec![11, 22]));

    // A port that is not driven, and one driven by a frame of another type,
    // both count as no input. So do a route to nowhere and a port too many.
    let routes = vec![None, Some(PortRef { node: 0, port: 1 })];
    let inputs = ProcessorInputs::new(&routes, &buffers, env);
    assert!(inputs.input(0).is_none());
    assert!(inputs.input(1).is_some());
    assert!(inputs.input_audio(1).is_none());
    assert!(inputs.input_real_spectrum(1).is_some());
    assert!(inputs.input(2).is_none());
    assert!(node.process(&inputs).is_ok());
    assert_eq!(node.outputs()[0].as_audio(), Some(&vec![0, 0]));
    let routes = vec![Some(PortRef { node: 5, port: 0 }), Some(PortRef { node: 1, port: 3 })];
    let inputs = ProcessorInputs::new(&routes, &buffers, env);
    assert!(inputs.input(0).is_none());
    assert!(inputs.input(1).is_none());
}

#[test]
fn node_hands_a_failure_on_under_its_name() {
    let mut node = FftProcessorNode::new_from_boxed(Box::new(Mixer {
        fail: true,
        allocated: 0,
        resized: 0,
    }));
    let buffers: Vec<Vec<Frame<i64>>> = Vec::new();
    let routes = vec![None, None];
    let env = ProcEnv { sample_rate: 0, block_size: 0, mode: ProcessMode::Block };
    let inputs = ProcessorInputs::new(&routes, &buffers, env);
    match node.process(&inputs) {
        Err(ProcessNodeError { node_name, error: ProcessorError::ProcessingError(text) }) => {
            assert_eq!(node_name, "Mixer");
            assert_eq!(text, "no");
        }
        other => panic!("unexpected outcome {other:?}"),
    }
}

#[test]
fn name_failure_keeps_success_and_names_failure() {
    let name = "node".to_string();
    assert!(name_failure(&name, Ok(())).is_ok());
    match name_failure(&name, Err(ProcessorError::OutputSpecMismatch(2))) {
        Err(ProcessNodeError { node_name, error: ProcessorError::OutputSpecMismatch(port) }) => {
            assert_eq!(node_name, "node");
            assert_eq!(port, 2);
        }
        other => panic!("unexpected outcome {other:?}"),
    }
}

#[test]
fn replacing_the_outputs_keeps_name_and_ports() {
    let mut node = FftProcessorNode::new(Mixer { fail: false, allocated: 0, resized: 0 });
    node.replace_outputs(vec![Frame::Audio(vec![7, 8, 9]), Frame::Audio(vec![1])]);
    assert_eq!(node.outputs().len(), 2);
    assert_eq!(node.outputs()[0].as_audio(), Some(&vec![7, 8, 9]));
    assert_eq!(node.outputs()[1].as_audio(), Some(&vec![1]));
    assert_eq!(node.name(), "Mixer");
    assert_eq!(node.num_inputs(), 2);
    assert_eq!(node.num_outputs(), 1);
    node.replace_outputs(Vec::new());
    assert!(node.outputs().is_empty());
}

#[test]
fn a_node_failure_becomes_a_sub_graph_failure() {
    assert!(sub_graph_outcome(Ok(())).is_ok());
    let failure = ProcessNodeError {
        node_name: "gain".to_string(),
        error: ProcessorError::ProcessingError("clipped".to_string()),
    };
    match sub_graph_outcome(Err(failure)) {
        Err(ProcessorError::SubGraphError(inner)) => {
            assert_eq!(inner.node_name, "gain");
            match inner.error {
                ProcessorError::ProcessingError(text) => assert_eq!(text, "clipped"),
                other => panic!("unexpected cause {other:?}"),
            }
        }
        other => panic!("unexpected outcome {other:?}"),
    }
}

#[test]
fn a_typed_node_becomes_a_graph_node_with_the_same_face() {
    let mut typed = FftProcessorNode::new(Mixer { fail: false, allocated: 0, resized: 0 });
    typed.allocate(48000);
    typed.resize_buffers(48000);
    // the caller still reaches the processor by its type
    assert_eq!(typed.processor().allocated, 1);
    assert_eq!(typed.processor().resized, 1);
    typed.processor_mut().fail = true;
    let node: FftProcessorNode<i64> = typed.into_dyn();
    assert_eq!(node.name(), "Mixer");
    assert_eq!(node.num_inputs(), 2);
    assert_eq!(node.num_outputs(), 1);
    assert_eq!(node.outputs()[0].len(), 3);
    assert_eq!(node.processor().name(), "Mixer");
}

#[test]
fn a_node_is_made_around_a_processor_of_any_type() {
    let boxed: Box<dyn FftProcessor<i64>> =
        Box::new(Mixer { fail: false, allocated: 0, resized: 0 });
    let mut node: FftProcessorNode<i64> = FftProcessorNode::new_from_boxed(boxed);
    assert_eq!(node.name(), "Mixer");
    assert_eq!(node.input_name(0), Some("left"));
    assert_eq!(node.outputs()[0].len(), 2);
    node.allocate(1);
    assert_eq!(node.outputs()[0].len(), 3);
    node.processor_mut().resize_buffers(2);
}

#[test]
fn reserving_room_changes_no_sample() {
    let mut input = FftInput::<i64>::new(4, 0);
    input.ingest(&vec![1, 2, 3], 3);
    input.reserve(1000);
    input.reserve(usize::MAX);
    assert_eq!(input.len(), 3);
    let mut output = FftOutput::<i64>::new(2, 0);
    output.overlap_add(&vec![5, 6], &vec![1, 1], &times, &plus);
    output.emit_hop(1, 0);
    output.reserve(64);
    output.reserve(usize::MAX);
    assert_eq!(output.len(), 1);
    assert_eq!(output.overlap_len(), 2);
    let mut block = vec![0];
    assert!(output.drain_block(1, &mut block));
    assert_eq!(block, vec![5]);
}

/// Leaves one buffer more, or one fewer, than it was given.
struct Recounting {
    grow: bool,
}

impl FftProcessor<i64> for Recounting {
    fn name(&self) -> &str {
        "Recounting"
    }

    fn input_spec(&self) -> Vec<SignalSpec> {
        Vec::new()
    }

    fn output_spec(&self) -> Vec<SignalSpec> {
        vec![SignalSpec::new("a", SignalType::AudioBlock), SignalSpec::new("b", SignalType::AudioBlock)]
    }

    fn create_output_buffers(&self, _size: usize) -> Vec<Frame<i64>> {
        vec![Frame::Audio(vec![0]), Frame::Audio(vec![0])]
    }

    fn process(
        &mut self,
        _inputs: &ProcessorInputs<'_, i64>,
        outputs: &mut Vec<Frame<i64>>,
    ) -> Result<(), ProcessorError> {
        if self.grow {
            outputs.push(Frame::Audio(vec![1]));
        } else {
            outputs.pop();
        }
        Ok(())
    }
}

#[test]
fn a_processor_that_changes_the_number_of_buffers_is_reported() {
    let buffers: Vec<Vec<Frame<i64>>> = Vec::new();
    let routes = Vec::new();
    let env = ProcEnv { sample_rate: 0, block_size: 0, mode: ProcessMode::Block };
    let inputs = ProcessorInputs::new(&routes, &buffers, env);
    let mut node = FftProcessorNode::new(Recounting { grow: true });
    match node.process(&inputs) {
        Err(ProcessNodeError { node_name, error: ProcessorError::OutputSpecMismatch(port) }) => {
            assert_eq!(node_name, "Recounting");
            assert_eq!(port, 2);
        }
        other => panic!("unexpected outcome {other:?}"),
    }
    let mut node = FftProcessorNode::new(Recounting { grow: false });
    match node.process(&inputs) {
        Err(ProcessNodeError { error: ProcessorError::OutputSpecMismatch(port), .. }) => {
            assert_eq!(port, 1);
        }
        other => panic!("unexpected outcome {other:?}"),
    }
}

#[test]
fn the_outcome_stands_where_the_count_of_buffers_stands() {
    assert!(keep_count(Ok(()), 2, 2).is_ok());
    assert!(matches!(keep_count(Ok(()), 2, 3), Err(ProcessorError::OutputSpecMismatch(2))));
    assert!(matches!(keep_count(Ok(()), 2, 0), Err(ProcessorError::OutputSpecMismatch(0))));
    let failed = Err(ProcessorError::ProcessingError("no".to_string()));
    assert!(matches!(keep_count(failed, 2, 3), Err(ProcessorError::ProcessingError(_))));
}
