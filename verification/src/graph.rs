use crate::arith::{
    carried_over, emitted, is_function, is_operation, is_scaling, silence, value_at, windowed,
};
use crate::builtins::transforms::{ComplexToReal, InverseRealFft, RealFft, RealToComplex};
use crate::builtins::util::Null;
use crate::frame::{repeat, Frame};
use crate::node::{FftInput, FftOutput, FftProcessorNode};
use crate::order::{
    appears_before, edges_of, is_acyclic, is_topological_order, topological_order, Incoming,
};
use crate::processor::{
    sub_graph_outcome, FftProcessor, PortRef, ProcEnv, ProcessMode, ProcessNodeError,
    ProcessorError, ProcessorInputs,
};
use crate::schedule::{
    count_frames, frames_ready, lemma_frames_ready_rest, lemma_frames_ready_step,
};
use crate::signal::{
    are_indexed_ports, indexed_ports, is_fft_length, Fft, SignalSpec, SignalType,
};
use crate::window::{divided, normalise_window, overlap_energy, rotated_right};
use vstd::prelude::*;

verus! {

/// Why two ports could not be connected.
#[derive(Clone, Copy, Debug, PartialEq, Eq, Structural)]
pub enum ConnectError {
    /// The graph has no node of the index given as source or as target.
    NoSuchNode,
    /// The source node has no output port of that index.
    NoSuchOutput,
    /// The target node has no input port of that index.
    NoSuchInput,
    /// The two ports carry different types of signal.
    TypeMismatch,
    /// The edge would close a cycle.
    Cycle,
}

/// A graph of spectral processors with audio inputs and outputs around it.
///
/// Each audio input is a stub node followed by a forward transform; each
/// audio output is an inverse transform. One call of `process` takes a block
/// of samples per input, runs the graph once for every frame that has become
/// complete, and gives a block of samples per output.
///
/// A graph holds processors of any type; `FftGraph<T, P>` is a graph whose
/// processors all have the type `P`, and says more of what they make.
#[verifier::reject_recursive_types(T)]
#[verifier::reject_recursive_types(P)]
pub struct FftGraph<T: Copy, P: ?Sized + FftProcessor<T> = dyn FftProcessor<T>> {
    nodes: Vec<FftProcessorNode<T, P>>,
    buffers: Vec<Vec<Frame<T>>>,
    incoming: Vec<Vec<Option<PortRef>>>,
    visit_path: Vec<usize>,
    n_fft: usize,
    sample_rate: T,
    block_size: usize,
    hop_length: usize,
    window: Vec<T>,
    zero: T,
    input_nodes: Vec<usize>,
    inputs: Vec<FftInput<T>>,
    output_nodes: Vec<usize>,
    outputs: Vec<FftOutput<T>>,
    handed_out: Vec<bool>,
}

impl<T: Copy, P: ?Sized + FftProcessor<T>> FftGraph<T, P> {
    /// The transform length.
    pub closed spec fn fft_len(&self) -> nat {
        self.n_fft as nat
    }

    /// The hop length.
    pub closed spec fn hop(&self) -> nat {
        self.hop_length as nat
    }

    /// The size of the outer block.
    pub closed spec fn block(&self) -> nat {
        self.block_size as nat
    }

    /// The sample rate that the nodes were told last.
    pub closed spec fn rate(&self) -> T {
        self.sample_rate
    }

    /// The analysis and synthesis window.
    pub closed spec fn window_table(&self) -> Seq<T> {
        self.window@
    }

    /// The sample that stands for silence.
    pub closed spec fn silent(&self) -> T {
        self.zero
    }

    /// The number of nodes.
    pub closed spec fn node_count(&self) -> nat {
        self.nodes@.len()
    }

    /// The name of node `d`.
    pub closed spec fn node_label(&self, d: int) -> Seq<char> {
        self.nodes@[d].label()
    }

    /// The input ports of node `d`.
    pub closed spec fn node_inputs(&self, d: int) -> Seq<SignalSpec> {
        self.nodes@[d].input_ports()
    }

    /// The output ports of node `d`.
    pub closed spec fn node_outputs(&self, d: int) -> Seq<SignalSpec> {
        self.nodes@[d].output_ports()
    }

    /// The output buffers of node `d`.
    pub closed spec fn node_buffers(&self, d: int) -> Seq<Frame<T>> {
        self.buffers@[d]@
    }

    /// The edges: for each node and each of its input ports, the output port
    /// that drives it.
    pub closed spec fn edges(&self) -> Incoming {
        Seq::new(self.incoming@.len(), |d: int| self.incoming@[d]@)
    }

    /// The order in which the nodes are processed.
    pub closed spec fn order(&self) -> Seq<usize> {
        self.visit_path@
    }

    /// The number of audio inputs.
    pub closed spec fn input_count(&self) -> nat {
        self.inputs@.len()
    }

    /// The number of audio outputs.
    pub closed spec fn output_count(&self) -> nat {
        self.outputs@.len()
    }

    /// The stub node of audio input `k`.
    pub closed spec fn input_stub(&self, k: int) -> int {
        self.input_nodes@[k] as int
    }

    /// The node whose first output feeds audio output `k`.
    pub closed spec fn output_node(&self, k: int) -> int {
        self.output_nodes@[k] as int
    }

    /// The samples waiting at audio input `k`.
    pub closed spec fn input_ring(&self, k: int) -> Seq<T> {
        self.inputs@[k].ring()
    }

    /// The frame that was staged last at audio input `k`.
    pub closed spec fn input_staged(&self, k: int) -> Seq<T> {
        self.inputs@[k].staged()
    }

    /// The samples ready at audio output `k`.
    pub closed spec fn output_ring(&self, k: int) -> Seq<T> {
        self.outputs@[k].ring()
    }

    /// The overlap buffer of audio output `k`.
    pub closed spec fn overlap(&self, k: int) -> Seq<T> {
        self.outputs@[k].overlap()
    }

    /// Whether audio output `k` handed out a block when `process` last came to
    /// hand blocks out.
    pub closed spec fn block_handed_out(&self, k: int) -> bool {
        self.handed_out@[k]
    }

    /// The tables of the graph belong together.
    pub closed spec fn tables_agree(&self) -> bool {
        &&& self.buffers@.len() == self.nodes@.len()
        &&& self.handed_out@.len() == self.outputs@.len()
        &&& self.incoming@.len() == self.nodes@.len()
        &&& self.input_nodes@.len() == self.inputs@.len()
        &&& self.output_nodes@.len() == self.outputs@.len()
        &&& forall|k: int|
            0 <= k < self.inputs@.len() ==> (#[trigger] self.inputs@[k]).staged().len()
                == self.n_fft
    }

    /// Every edge leads from an output port that exists to an input port that
    /// exists, and the two carry the same type of signal.
    pub open spec fn edges_typed(&self) -> bool {
        &&& self.edges().len() == self.node_count()
        &&& forall|d: int|
            0 <= d < self.node_count() ==> (#[trigger] self.edges()[d]).len()
                == self.node_inputs(d).len()
        &&& forall|d: int, i: int|
            0 <= d < self.node_count() && 0 <= i < self.edges()[d].len() && (
            #[trigger] self.edges()[d][i]) is Some ==> {
                let source = self.edges()[d][i].unwrap();
                &&& source.node < self.node_count()
                &&& source.port < self.node_outputs(source.node as int).len()
                &&& self.node_outputs(source.node as int)[source.port as int].signal_type
                    == self.node_inputs(d)[i].signal_type
            }
    }

    /// The graph is well formed.
    pub open spec fn wf(&self) -> bool {
        &&& self.tables_agree()
        &&& is_fft_length(self.fft_len())
        &&& 0 < self.hop() <= self.fft_len()
        &&& self.fft_len() % self.hop() == 0
        &&& self.window_table().len() == self.fft_len()
        &&& self.edges_typed()
        &&& is_topological_order(self.order(), self.edges())
        &&& forall|k: int|
            0 <= k < self.input_count() ==> 0 <= #[trigger] self.input_stub(k) < self.node_count()
        &&& forall|j: int, k: int|
            0 <= j < k < self.input_count() ==> #[trigger] self.input_stub(j)
                < #[trigger] self.input_stub(k)
        &&& forall|k: int|
            0 <= k < self.output_count() ==> 0 <= #[trigger] self.output_node(k)
                < self.node_count()
        &&& forall|k: int|
            0 <= k < self.output_count() ==> (#[trigger] self.overlap(k)).len() == self.fft_len()
    }

    /// An empty graph for frames of `n_fft` samples that advance by
    /// `hop_length`, with the analysis and synthesis window `window`. `zero`
    /// is the sample that stands for silence.
    pub fn with_length(n_fft: usize, hop_length: usize, window: Vec<T>, zero: T) -> (graph: Self)
        requires
            is_fft_length(n_fft as nat),
            0 < hop_length <= n_fft,
            n_fft % hop_length == 0,
            window@.len() == n_fft,
        ensures
            graph.wf(),
            graph.fft_len() == n_fft,
            graph.hop() == hop_length,
            graph.block() == 0,
            graph.rate() == zero,
            graph.silent() == zero,
            graph.window_table() == window@,
            graph.node_count() == 0,
            graph.input_count() == 0,
            graph.output_count() == 0,
    {
        let graph = FftGraph {
            nodes: Vec::new(),
            buffers: Vec::new(),
            incoming: Vec::new(),
            visit_path: Vec::new(),
            n_fft,
            sample_rate: zero,
            block_size: 0,
            hop_length,
            window,
            zero,
            input_nodes: Vec::new(),
            inputs: Vec::new(),
            output_nodes: Vec::new(),
            outputs: Vec::new(),
            handed_out: Vec::new(),
        };
        assert(graph.edges() =~= Seq::<Seq<Option<PortRef>>>::empty());
        graph
    }

    /// An empty graph for frames of the size `F`.
    pub fn new<F: Fft>(hop_length: usize, window: Vec<T>, zero: T) -> (graph: Self)
        requires
            0 < hop_length <= F::fft_length(),
            F::fft_length() % (hop_length as nat) == 0,
            window@.len() == F::fft_length(),
        ensures
            graph.wf(),
            graph.fft_len() == F::fft_length(),
            graph.hop() == hop_length,
            graph.block() == 0,
            graph.rate() == zero,
            graph.silent() == zero,
            graph.window_table() == window@,
            graph.node_count() == 0,
            graph.input_count() == 0,
            graph.output_count() == 0,
    {
        Self::with_length(F::n_fft(), hop_length, window, zero)
    }

    /// An empty graph for frames of the size `F`, whose analysis and synthesis
    /// window is made of the window table `table`: the table is centred on
    /// index 0 and scaled so that overlap-add has unit gain. There is no such
    /// graph where the window has no energy.
    pub fn from_table<
        F: Fft,
        M: Fn(T, T) -> T,
        A: Fn(T, T) -> T,
        D: Fn(T, T) -> T,
        C: Fn(T, usize) -> T,
        R: Fn(T) -> T,
        Z: Fn(T) -> bool,
    >(
        hop_length: usize,
        table: Vec<T>,
        zero: T,
        mul: &M,
        add: &A,
        div: &D,
        times_count: &C,
        root: &R,
        is_zero: &Z,
    ) -> (graph: Option<Self>)
        requires
            0 < hop_length <= F::fft_length(),
            F::fft_length() % (hop_length as nat) == 0,
            table@.len() == F::fft_length(),
            is_operation(*mul),
            is_operation(*add),
            is_operation(*div),
            is_scaling(*times_count),
            is_function(*root),
            is_function(*is_zero),
        ensures
            ({
                let centred = rotated_right(table@, (table@.len() / 2) as int);
                let energy = overlap_energy(*mul, *add, *times_count, zero, centred, hop_length);
                &&& graph is Some <==> !value_at(*is_zero, energy)
                &&& graph matches Some(made) ==> {
                    &&& made.wf()
                    &&& made.fft_len() == F::fft_length()
                    &&& made.hop() == hop_length
                    &&& made.block() == 0
                    &&& made.rate() == zero
                    &&& made.silent() == zero
                    &&& made.window_table() == divided(*div, centred, value_at(*root, energy))
                    &&& made.node_count() == 0
                    &&& made.input_count() == 0
                    &&& made.output_count() == 0
                }
            }),
    {
        let mut window = table;
        let scaled = normalise_window(
            &mut window,
            hop_length,
            zero,
            mul,
            add,
            div,
            times_count,
            root,
            is_zero,
        );
        if scaled {
            Some(Self::new::<F>(hop_length, window, zero))
        } else {
            None
        }
    }

    /// The frame that was staged last at audio input `k`, if there is such an
    /// input.
    pub fn staged_frame(&self, k: usize) -> (r: Option<&Vec<T>>)
        ensures
            r is Some <==> k < self.input_count(),
            r matches Some(frame) ==> frame@ == self.input_staged(k as int),
    {
        if k < self.inputs.len() {
            Some(self.inputs[k].time_domain())
        } else {
            None
        }
    }

    pub fn fft_length(&self) -> (n: usize)
        ensures
            n == self.fft_len(),
    {
        self.n_fft
    }

    pub fn hop_length(&self) -> (h: usize)
        ensures
            h == self.hop(),
    {
        self.hop_length
    }

    pub fn block_size(&self) -> (b: usize)
        ensures
            b == self.block(),
    {
        self.block_size
    }

    pub fn num_nodes(&self) -> (n: usize)
        ensures
            n == self.node_count(),
    {
        self.nodes.len()
    }

    pub fn num_audio_inputs(&self) -> (n: usize)
        ensures
            n == self.input_count(),
    {
        self.inputs.len()
    }

    pub fn num_audio_outputs(&self) -> (n: usize)
        ensures
            n == self.output_count(),
    {
        self.outputs.len()
    }

    /// The two graphs have the same settings.
    pub open spec fn same_settings(&self, other: &Self) -> bool {
        &&& self.fft_len() == other.fft_len()
        &&& self.hop() == other.hop()
        &&& self.block() == other.block()
        &&& self.rate() == other.rate()
        &&& self.window_table() == other.window_table()
        &&& self.silent() == other.silent()
    }

    /// This graph has every audio input of `other`, in the same place and in
    /// the same state.
    pub open spec fn keeps_audio_inputs_of(&self, other: &Self) -> bool {
        &&& other.input_count() <= self.input_count()
        &&& forall|k: int|
            0 <= k < other.input_count() ==> #[trigger] self.input_stub(k) == other.input_stub(k)
        &&& forall|k: int|
            0 <= k < other.input_count() ==> #[trigger] self.input_ring(k) == other.input_ring(k)
    }

    /// The two graphs have the same audio inputs, in the same state.
    pub open spec fn same_audio_inputs(&self, other: &Self) -> bool {
        &&& self.input_count() == other.input_count()
        &&& self.keeps_audio_inputs_of(other)
    }

    /// This graph has every audio output of `other`, in the same place and in
    /// the same state.
    pub open spec fn keeps_audio_outputs_of(&self, other: &Self) -> bool {
        &&& other.output_count() <= self.output_count()
        &&& forall|k: int|
            0 <= k < other.output_count() ==> #[trigger] self.output_node(k) == other.output_node(
                k,
            )
        &&& forall|k: int|
            0 <= k < other.output_count() ==> #[trigger] self.output_ring(k) == other.output_ring(
                k,
            )
        &&& forall|k: int|
            0 <= k < other.output_count() ==> #[trigger] self.overlap(k) == other.overlap(k)
    }

    /// The two graphs have the same audio outputs, in the same state.
    pub open spec fn same_audio_outputs(&self, other: &Self) -> bool {
        &&& self.output_count() == other.output_count()
        &&& self.keeps_audio_outputs_of(other)
    }

    /// This graph has every node of `other`, under the same index and with
    /// the same name and ports.
    pub open spec fn keeps_nodes_of(&self, other: &Self) -> bool {
        &&& other.node_count() <= self.node_count()
        &&& forall|d: int|
            0 <= d < other.node_count() ==> #[trigger] self.node_label(d) == other.node_label(d)
        &&& forall|d: int|
            0 <= d < other.node_count() ==> #[trigger] self.node_inputs(d) == other.node_inputs(d)
        &&& forall|d: int|
            0 <= d < other.node_count() ==> #[trigger] self.node_outputs(d) == other.node_outputs(
                d,
            )
    }

    /// This graph has every edge of `other`, and none more into the nodes of
    /// `other`.
    pub open spec fn keeps_edges_of(&self, other: &Self) -> bool {
        &&& other.edges().len() <= self.edges().len()
        &&& forall|d: int|
            0 <= d < other.edges().len() ==> #[trigger] self.edges()[d] == other.edges()[d]
    }

    /// Two graphs with the same node, edge and input tables agree on all of
    /// them.
    proof fn lemma_same_tables(a: &Self, b: &Self)
        requires
            a.nodes == b.nodes,
            a.edges() == b.edges(),
            a.inputs == b.inputs,
            a.input_nodes == b.input_nodes,
        ensures
            a.keeps_nodes_of(b),
            a.keeps_edges_of(b),
            a.same_audio_inputs(b),
            a.edges() == b.edges(),
    {
    }

    /// Two graphs with the same output tables agree on them.
    proof fn lemma_same_output_tables(a: &Self, b: &Self)
        requires
            a.outputs == b.outputs,
            a.output_nodes == b.output_nodes,
        ensures
            a.same_audio_outputs(b),
    {
    }

    /// Keeping nodes carries over a chain of graphs.
    pub proof fn lemma_keeps_nodes_trans(a: &Self, b: &Self, c: &Self)
        requires
            b.keeps_nodes_of(a),
            c.keeps_nodes_of(b),
        ensures
            c.keeps_nodes_of(a),
    {
        assert forall|d: int| 0 <= d < a.node_count() implies #[trigger] c.node_label(d)
            == a.node_label(d) by {
            assert(b.node_label(d) == a.node_label(d));
        }
        assert forall|d: int| 0 <= d < a.node_count() implies #[trigger] c.node_inputs(d)
            == a.node_inputs(d) by {
            assert(b.node_inputs(d) == a.node_inputs(d));
        }
        assert forall|d: int| 0 <= d < a.node_count() implies #[trigger] c.node_outputs(d)
            == a.node_outputs(d) by {
            assert(b.node_outputs(d) == a.node_outputs(d));
        }
    }

    /// Keeping edges carries over a chain of graphs.
    pub proof fn lemma_keeps_edges_trans(a: &Self, b: &Self, c: &Self)
        requires
            b.keeps_edges_of(a),
            c.keeps_edges_of(b),
        ensures
            c.keeps_edges_of(a),
    {
        assert forall|d: int| 0 <= d < a.edges().len() implies #[trigger] c.edges()[d]
            == a.edges()[d] by {
            assert(b.edges()[d] == a.edges()[d]);
        }
    }

    /// Keeping audio inputs carries over a chain of graphs.
    pub proof fn lemma_keeps_inputs_trans(a: &Self, b: &Self, c: &Self)
        requires
            b.keeps_audio_inputs_of(a),
            c.keeps_audio_inputs_of(b),
        ensures
            c.keeps_audio_inputs_of(a),
    {
        assert forall|k: int| 0 <= k < a.input_count() implies #[trigger] c.input_stub(k)
            == a.input_stub(k) by {
            assert(b.input_stub(k) == a.input_stub(k));
        }
        assert forall|k: int| 0 <= k < a.input_count() implies #[trigger] c.input_ring(k)
            == a.input_ring(k) by {
            assert(b.input_ring(k) == a.input_ring(k));
        }
    }

    /// Keeping audio outputs carries over a chain of graphs.
    pub proof fn lemma_keeps_outputs_trans(a: &Self, b: &Self, c: &Self)
        requires
            b.keeps_audio_outputs_of(a),
            c.keeps_audio_outputs_of(b),
        ensures
            c.keeps_audio_outputs_of(a),
    {
        assert forall|k: int| 0 <= k < a.output_count() implies #[trigger] c.output_node(k)
            == a.output_node(k) by {
            assert(b.output_node(k) == a.output_node(k));
        }
        assert forall|k: int| 0 <= k < a.output_count() implies #[trigger] c.output_ring(k)
            == a.output_ring(k) by {
            assert(b.output_ring(k) == a.output_ring(k));
        }
        assert forall|k: int| 0 <= k < a.output_count() implies #[trigger] c.overlap(k)
            == a.overlap(k) by {
            assert(b.overlap(k) == a.overlap(k));
        }
    }

    /// `b` differs from `a` at most in the sample rate, the block size, the
    /// node buffers, the samples in the ring and overlap buffers, and what
    /// the processors keep to themselves.
    closed spec fn shape_kept(a: &Self, b: &Self) -> bool {
        &&& b.nodes@.len() == a.nodes@.len()
        &&& forall|d: int|
            0 <= d < a.nodes@.len() ==> {
                &&& (#[trigger] b.nodes@[d]).label() == a.nodes@[d].label()
                &&& b.nodes@[d].input_ports() == a.nodes@[d].input_ports()
                &&& b.nodes@[d].output_ports() == a.nodes@[d].output_ports()
            }
        &&& b.buffers@.len() == a.buffers@.len()
        &&& b.edges() == a.edges()
        &&& b.visit_path == a.visit_path
        &&& b.n_fft == a.n_fft
        &&& b.hop_length == a.hop_length
        &&& b.window == a.window
        &&& b.zero == a.zero
        &&& b.input_nodes == a.input_nodes
        &&& b.output_nodes == a.output_nodes
        &&& b.inputs@.len() == a.inputs@.len()
        &&& forall|k: int|
            0 <= k < a.inputs@.len() ==> (#[trigger] b.inputs@[k]).staged().len() == a.n_fft
        &&& b.outputs@.len() == a.outputs@.len()
        &&& b.handed_out@.len() == a.handed_out@.len()
        &&& forall|k: int|
            0 <= k < a.outputs@.len() ==> (#[trigger] b.outputs@[k]).overlap().len() == a.n_fft
    }

    /// A well-formed graph keeps its own shape.
    proof fn lemma_shape_kept_refl(a: &Self)
        requires
            a.wf(),
        ensures
            Self::shape_kept(a, a),
    {
        assert forall|k: int| 0 <= k < a.outputs@.len() implies (
        #[trigger] a.outputs@[k]).overlap().len() == a.n_fft by {
            assert(a.overlap(k).len() == a.fft_len());
        }
    }

    /// A graph that keeps the shape of a well-formed one is well formed.
    proof fn lemma_wf_carries(a: &Self, b: &Self)
        requires
            a.wf(),
            Self::shape_kept(a, b),
        ensures
            b.wf(),
            b.same_shape(a),
    {
        assert(b.edges() =~= a.edges());
        assert forall|d: int| 0 <= d < a.node_count() implies #[trigger] b.node_label(d)
            == a.node_label(d) by {
            assert(b.nodes@[d].label() == a.nodes@[d].label());
        }
        assert forall|d: int| 0 <= d < a.node_count() implies #[trigger] b.node_inputs(d)
            == a.node_inputs(d) by {
            assert(b.nodes@[d].input_ports() == a.nodes@[d].input_ports());
        }
        assert forall|d: int| 0 <= d < a.node_count() implies #[trigger] b.node_outputs(d)
            == a.node_outputs(d) by {
            assert(b.nodes@[d].output_ports() == a.nodes@[d].output_ports());
        }
        assert forall|d: int|
            0 <= d < b.node_count() implies (#[trigger] b.edges()[d]).len() == b.node_inputs(
            d,
        ).len() by {
            assert(a.edges()[d].len() == a.node_inputs(d).len());
        }
        assert forall|d: int, i: int|
            0 <= d < b.node_count() && 0 <= i < b.edges()[d].len() && (
            #[trigger] b.edges()[d][i]) is Some implies {
            let source = b.edges()[d][i].unwrap();
            &&& source.node < b.node_count()
            &&& source.port < b.node_outputs(source.node as int).len()
            &&& b.node_outputs(source.node as int)[source.port as int].signal_type
                == b.node_inputs(d)[i].signal_type
        } by {
            assert(a.edges()[d][i] is Some);
            let source = a.edges()[d][i].unwrap();
            assert(b.node_outputs(source.node as int) == a.node_outputs(source.node as int));
            assert(b.node_inputs(d) == a.node_inputs(d));
        }
        assert forall|k: int| 0 <= k < b.input_count() implies 0 <= #[trigger] b.input_stub(k)
            < b.node_count() by {
            assert(a.input_stub(k) < a.node_count());
        }
        assert forall|j: int, k: int| 0 <= j < k < b.input_count() implies #[trigger] b.input_stub(
            j,
        ) < #[trigger] b.input_stub(k) by {
            assert(a.input_stub(j) < a.input_stub(k));
        }
        assert forall|k: int| 0 <= k < b.output_count() implies 0 <= #[trigger] b.output_node(k)
            < b.node_count() by {
            assert(a.output_node(k) < a.node_count());
        }
        assert forall|k: int| 0 <= k < b.output_count() implies (#[trigger] b.overlap(k)).len()
            == b.fft_len() by {
            assert(b.outputs@[k].overlap().len() == a.n_fft);
        }
    }

    /// Adds `node` to the graph, with no edge to or from it. It is processed
    /// after all the nodes that were there before. Returns the node's index.
    pub fn add_node(&mut self, node: FftProcessorNode<T, P>) -> (id: usize)
        requires
            old(self).wf(),
        ensures
            final(self).wf(),
            id == old(self).node_count(),
            final(self).node_count() == old(self).node_count() + 1,
            final(self).node_label(id as int) == node.label(),
            final(self).node_inputs(id as int) == node.input_ports(),
            final(self).node_outputs(id as int) == node.output_ports(),
            final(self).node_buffers(id as int) == node.buffers(),
            final(self).edges()[id as int] == Seq::new(
                node.input_ports().len(),
                |i: int| None::<PortRef>,
            ),
            final(self).order() == old(self).order().push(id),
            final(self).keeps_nodes_of(old(self)),
            final(self).keeps_edges_of(old(self)),
            forall|d: int|
                0 <= d < old(self).node_count() ==> #[trigger] final(self).node_buffers(d) == old(
                    self,
                ).node_buffers(d),
            final(self).same_settings(old(self)),
            final(self).same_audio_inputs(old(self)),
            final(self).same_audio_outputs(old(self)),
    {
        let mut node = node;
        let mut held: Vec<Frame<T>> = Vec::new();
        node.swap_outputs(&mut held);
        let routes: Vec<Option<PortRef>> = repeat(None, node.num_inputs());
        let id = self.nodes.len();
        self.nodes.push(node);
        self.buffers.push(held);
        self.incoming.push(routes);
        self.visit_path.push(id);
        proof {
            assert forall|k: int| 0 <= k < self.input_count() implies 0 <= #[trigger] self.input_stub(
                k,
            ) < self.node_count() by {
                assert(old(self).input_stub(k) < old(self).node_count());
            }
            assert forall|j: int, k: int| 0 <= j < k < self.input_count() implies #[trigger] self.input_stub(j)
                < #[trigger] self.input_stub(k) by {
                assert(old(self).input_stub(j) < old(self).input_stub(k));
            }
            assert forall|k: int| 0 <= k < self.output_count() implies 0
                <= #[trigger] self.output_node(k) < self.node_count() by {
                assert(old(self).output_node(k) < old(self).node_count());
            }
            assert forall|k: int| 0 <= k < self.output_count() implies (#[trigger] self.overlap(
                k,
            )).len() == self.fft_len() by {
                assert(old(self).overlap(k).len() == old(self).fft_len());
            }
            let before = old(self).edges();
            let after = self.edges();
            assert(after =~= before.push(routes@));
            assert forall|d: int| 0 <= d < before.len() implies #[trigger] after[d] == before[d] by {}
            let order0 = old(self).order();
            let order1 = self.order();
            assert forall|d: int| 0 <= d < after.len() implies #[trigger] appears_before(
                order1,
                d,
                order1.len() as int,
            ) by {
                if d < before.len() {
                    assert(appears_before(order0, d, order0.len() as int));
                    let j = choose|j: int|
                        0 <= j < order0.len() && j < order0.len() && #[trigger] order0[j] == d;
                    assert(order1[j] == d);
                } else {
                    assert(order1[order0.len() as int] == d);
                }
            }
            assert forall|k: int, i: int|
                0 <= k < order1.len() && 0 <= i < after[order1[k] as int].len() && (
                #[trigger] after[order1[k] as int][i]) is Some implies appears_before(
                order1,
                after[order1[k] as int][i].unwrap().node as int,
                k,
            ) by {
                if k < order0.len() {
                    assert(order1[k] == order0[k]);
                    let source = before[order0[k] as int][i].unwrap().node as int;
                    assert(appears_before(order0, source, k));
                    let j = choose|j: int|
                        0 <= j < k && j < order0.len() && #[trigger] order0[j] == source;
                    assert(order1[j] == source);
                }
            }
        }
        id
    }

    /// Nothing but the node buffers and what the processors keep to
    /// themselves differs between the two graphs.
    pub open spec fn same_shape(&self, other: &Self) -> bool {
        &&& self.node_count() == other.node_count()
        &&& self.keeps_nodes_of(other)
        &&& self.edges() == other.edges()
        &&& self.order() == other.order()
        &&& self.fft_len() == other.fft_len()
        &&& self.hop() == other.hop()
        &&& self.window_table() == other.window_table()
        &&& self.silent() == other.silent()
        &&& self.input_count() == other.input_count()
        &&& self.output_count() == other.output_count()
        &&& forall|k: int|
            0 <= k < self.input_count() ==> #[trigger] self.input_stub(k) == other.input_stub(k)
        &&& forall|k: int|
            0 <= k < self.output_count() ==> #[trigger] self.output_node(k) == other.output_node(
                k,
            )
    }

    /// The frame that the output port `route` holds, if there is such a port.
    pub open spec fn frame_at(&self, route: Option<PortRef>) -> Option<Frame<T>> {
        match route {
            Some(source) => if source.node < self.buffer_count() && source.port
                < self.node_buffers(source.node as int).len() {
                Some(self.node_buffers(source.node as int)[source.port as int])
            } else {
                None
            },
            None => None,
        }
    }

    /// What the graph hands to node `node_id` when the node processes a
    /// frame: for each input port of the node, the frame in the output buffer
    /// that the edge into that port names, and nothing where no edge leads;
    /// with them the graph's sample rate and block size, for a whole block.
    pub fn inputs_of(&self, node_id: usize) -> (inputs: ProcessorInputs<'_, T>)
        requires
            node_id < self.edges().len(),
        ensures
            inputs.count() == self.edges()[node_id as int].len(),
            forall|i: int|
                0 <= i < self.edges()[node_id as int].len() ==> inputs.frame(i) == self.frame_at(
                    #[trigger] self.edges()[node_id as int][i],
                ),
            forall|i: int|
                !(0 <= i < self.edges()[node_id as int].len()) ==> inputs.frame(i) is None,
            inputs.env() == (ProcEnv {
                sample_rate: self.rate(),
                block_size: self.block() as usize,
                mode: ProcessMode::Block,
            }),
    {
        let env = ProcEnv {
            sample_rate: self.sample_rate,
            block_size: self.block_size,
            mode: ProcessMode::Block,
        };
        ProcessorInputs::new(&self.incoming[node_id], &self.buffers, env)
    }

    /// Processes one frame at node `node_id`: the node is handed
    /// `inputs_of(node_id)`, reads the output buffers of the nodes that drive
    /// its inputs, and writes its own. A failure comes back with the node's
    /// name.
    pub fn process_node(&mut self, node_id: usize) -> (r: Result<(), ProcessNodeError>)
        requires
            old(self).wf(),
            node_id < old(self).node_count(),
        ensures
            final(self).wf(),
            final(self).same_shape(old(self)),
            final(self).same_settings(old(self)),
            final(self).same_audio_inputs(old(self)),
            final(self).same_audio_outputs(old(self)),
            final(self).same_staged(old(self)),
            forall|d: int|
                0 <= d < old(self).node_count() && d != node_id ==> #[trigger] final(self).node_buffers(
                    d,
                ) == old(self).node_buffers(d),
            r matches Err(failure) ==> failure.node_name@ == old(self).node_label(node_id as int),
            r is Ok ==> final(self).node_buffers(node_id as int).len() == old(self).node_buffers(
                node_id as int,
            ).len(),
    {
        let mut held: Vec<Frame<T>> = Vec::new();
        core::mem::swap(&mut held, &mut self.buffers[node_id]);
        let mut nodes: Vec<FftProcessorNode<T, P>> = Vec::new();
        core::mem::swap(&mut nodes, &mut self.nodes);
        nodes[node_id].swap_outputs(&mut held);
        let inputs = self.inputs_of(node_id);
        let r = nodes[node_id].process(&inputs);
        nodes[node_id].swap_outputs(&mut held);
        core::mem::swap(&mut nodes, &mut self.nodes);
        core::mem::swap(&mut held, &mut self.buffers[node_id]);
        proof {
            Self::lemma_shape_kept_refl(old(self));
            Self::lemma_same_output_tables(self, old(self));
            assert(self.inputs == old(self).inputs);
            assert(self.edges() == old(self).edges());
            assert forall|d: int| 0 <= d < old(self).nodes@.len() implies {
                &&& (#[trigger] self.nodes@[d]).label() == old(self).nodes@[d].label()
                &&& self.nodes@[d].input_ports() == old(self).nodes@[d].input_ports()
                &&& self.nodes@[d].output_ports() == old(self).nodes@[d].output_ports()
            } by {}
            Self::lemma_wf_carries(old(self), self);
        }
        r
    }

    /// The processor of node `d`.
    pub closed spec fn node_processor(&self, d: int) -> &P {
        self.nodes@[d].held()
    }

    /// The output buffers of node `d` are the ones that its processor makes
    /// for one frame.
    pub open spec fn node_allocated(&self, d: int) -> bool {
        exists|buffers: Vec<Frame<T>>|
            call_ensures(P::create_output_buffers, (self.node_processor(d), 1usize), buffers)
                && self.node_buffers(d) == buffers@
    }

    /// Sets the sample rate and the size of the outer block, and lets every
    /// node allocate: each node's output buffers are replaced by the ones
    /// that its processor makes for one frame. Room is made in every ring
    /// buffer for one block and one frame of samples.
    pub fn allocate(&mut self, sample_rate: T, block_size: usize)
        requires
            old(self).wf(),
        ensures
            final(self).wf(),
            forall|d: int| 0 <= d < old(self).node_count() ==> final(self).node_allocated(d),
            final(self).same_shape(old(self)),
            final(self).rate() == sample_rate,
            final(self).block() == block_size,
            final(self).same_audio_inputs(old(self)),
            final(self).same_audio_outputs(old(self)),
    {
        self.sample_rate = sample_rate;
        self.block_size = block_size;
        proof {
            Self::lemma_shape_kept_refl(old(self));
        }
        let mut d: usize = 0;
        while d < self.nodes.len()
            invariant
                old(self).wf(),
                Self::shape_kept(old(self), self),
                self.inputs == old(self).inputs,
                self.outputs == old(self).outputs,
                self.sample_rate == sample_rate,
                self.block_size == block_size,
                d <= self.nodes@.len(),
                forall|j: int| 0 <= j < d ==> self.node_allocated(j),
            decreases self.nodes@.len() - d,
        {
            let ghost before = *self;
            self.nodes[d].allocate(sample_rate);
            let ghost made = choose|buffers: Vec<Frame<T>>|
                call_ensures(
                    P::create_output_buffers,
                    (self.nodes@[d as int].held(), 1usize),
                    buffers,
                ) && self.nodes@[d as int].buffers() == buffers@;
            let mut fresh: Vec<Frame<T>> = Vec::new();
            self.nodes[d].swap_outputs(&mut fresh);
            self.buffers[d] = fresh;
            proof {
                assert(call_ensures(
                    P::create_output_buffers,
                    (self.node_processor(d as int), 1usize),
                    made,
                ));
                assert(self.node_buffers(d as int) == made@);
                assert forall|j: int| 0 <= j < d implies self.node_allocated(j) by {
                    assert(before.node_allocated(j));
                    let held = choose|buffers: Vec<Frame<T>>|
                        call_ensures(
                            P::create_output_buffers,
                            (before.node_processor(j), 1usize),
                            buffers,
                        ) && before.node_buffers(j) == buffers@;
                    assert(self.node_processor(j) == before.node_processor(j));
                    assert(self.node_buffers(j) == held@);
                }
            }
            d += 1;
        }
        proof {
            Self::lemma_wf_carries(old(self), self);
            Self::lemma_same_output_tables(self, old(self));
        }
        let ghost allocated = *self;
        self.reserve_rings();
        proof {
            Self::lemma_same_shape_trans(old(self), &allocated, self);
            Self::lemma_keeps_inputs_trans(old(self), &allocated, self);
            Self::lemma_keeps_outputs_trans(old(self), &allocated, self);
            assert forall|d: int| 0 <= d < old(self).node_count() implies self.node_allocated(
                d,
            ) by {
                assert(allocated.node_allocated(d));
                let held = choose|buffers: Vec<Frame<T>>|
                    call_ensures(
                        P::create_output_buffers,
                        (allocated.node_processor(d), 1usize),
                        buffers,
                    ) && allocated.node_buffers(d) == buffers@;
                assert(self.node_processor(d) == allocated.node_processor(d));
                assert(self.node_buffers(d) == held@);
            }
        }
    }

    /// Makes room in every ring buffer for one block and one frame of
    /// samples, so that the buffers need not grow while audio runs.
    fn reserve_rings(&mut self)
        requires
            old(self).wf(),
        ensures
            final(self).wf(),
            final(self).same_shape(old(self)),
            final(self).same_settings(old(self)),
            final(self).same_audio_inputs(old(self)),
            final(self).same_audio_outputs(old(self)),
            final(self).same_node_buffers(old(self)),
            forall|d: int|
                0 <= d < old(self).node_count() ==> #[trigger] final(self).node_processor(d)
                    == old(self).node_processor(d),
    {
        let room = if self.block_size > usize::MAX - self.n_fft {
            usize::MAX
        } else {
            self.block_size + self.n_fft
        };
        proof {
            Self::lemma_shape_kept_refl(old(self));
        }
        let mut k: usize = 0;
        while k < self.inputs.len()
            invariant
                old(self).wf(),
                Self::shape_kept(old(self), self),
                self.nodes == old(self).nodes,
                self.buffers == old(self).buffers,
                self.outputs == old(self).outputs,
                self.sample_rate == old(self).sample_rate,
                self.block_size == old(self).block_size,
                forall|j: int|
                    0 <= j < self.inputs@.len() ==> (#[trigger] self.inputs@[j]).ring() == old(
                        self,
                    ).inputs@[j].ring(),
            decreases self.inputs@.len() - k,
        {
            self.inputs[k].reserve(room);
            k += 1;
        }
        let ghost half = *self;
        let mut k: usize = 0;
        while k < self.outputs.len()
            invariant
                old(self).wf(),
                Self::shape_kept(old(self), self),
                self.nodes == old(self).nodes,
                self.buffers == old(self).buffers,
                self.inputs == half.inputs,
                self.sample_rate == old(self).sample_rate,
                self.block_size == old(self).block_size,
                forall|j: int|
                    0 <= j < self.inputs@.len() ==> (#[trigger] self.inputs@[j]).ring() == old(
                        self,
                    ).inputs@[j].ring(),
                forall|j: int|
                    0 <= j < self.outputs@.len() ==> (#[trigger] self.outputs@[j]).ring() == old(
                        self,
                    ).outputs@[j].ring(),
                forall|j: int|
                    0 <= j < self.outputs@.len() ==> (#[trigger] self.outputs@[j]).overlap()
                        == old(self).outputs@[j].overlap(),
            decreases self.outputs@.len() - k,
        {
            self.outputs[k].reserve(room);
            k += 1;
        }
        proof {
            Self::lemma_wf_carries(old(self), self);
        }
    }

    /// Sets the sample rate and the size of the outer block, and tells every
    /// node of the new sample rate. No buffer is replaced.
    pub fn resize_buffers(&mut self, sample_rate: T, block_size: usize)
        requires
            old(self).wf(),
        ensures
            final(self).wf(),
            final(self).same_shape(old(self)),
            final(self).rate() == sample_rate,
            final(self).block() == block_size,
            final(self).same_audio_inputs(old(self)),
            final(self).same_audio_outputs(old(self)),
            forall|d: int|
                0 <= d < old(self).node_count() ==> #[trigger] final(self).node_buffers(d) == old(
                    self,
                ).node_buffers(d),
    {
        self.sample_rate = sample_rate;
        self.block_size = block_size;
        proof {
            Self::lemma_shape_kept_refl(old(self));
        }
        let mut d: usize = 0;
        while d < self.nodes.len()
            invariant
                old(self).wf(),
                Self::shape_kept(old(self), self),
                self.inputs == old(self).inputs,
                self.outputs == old(self).outputs,
                self.buffers == old(self).buffers,
                self.sample_rate == sample_rate,
                self.block_size == block_size,
            decreases self.nodes@.len() - d,
        {
            self.nodes[d].resize_buffers(sample_rate);
            d += 1;
        }
        proof {
            Self::lemma_wf_carries(old(self), self);
            Self::lemma_same_output_tables(self, old(self));
        }
    }

    /// The length of the shortest ring buffer among the first `count` audio
    /// inputs; with none of them, the largest length there is.
    pub open spec fn shortest_among(&self, count: nat) -> nat
        decreases count,
    {
        if count == 0 {
            usize::MAX as nat
        } else {
            let rest = self.shortest_among((count - 1) as nat);
            let len = self.input_ring(count - 1).len();
            if len < rest {
                len
            } else {
                rest
            }
        }
    }

    /// The length of the shortest ring buffer among the audio inputs.
    pub open spec fn shortest_input(&self) -> nat {
        self.shortest_among(self.input_count())
    }

    /// Each audio input has taken in the first `block()` samples of its block
    /// in `blocks`, and has since advanced by `hops` hops.
    pub open spec fn inputs_advanced(&self, before: &Self, blocks: Seq<Vec<T>>, hops: nat) -> bool {
        forall|k: int|
            0 <= k < before.input_count() ==> #[trigger] self.input_ring(k) == (before.input_ring(
                k,
            ) + blocks[k]@.take(before.block() as int)).skip((hops * before.hop()) as int)
    }

    /// The frames staged last at the audio inputs of the two graphs are the
    /// same.
    pub open spec fn same_staged(&self, other: &Self) -> bool {
        forall|k: int|
            0 <= k < other.input_count() ==> #[trigger] self.input_staged(k) == other.input_staged(
                k,
            )
    }

    /// The frame staged last at every audio input is the first frame of the
    /// ring buffer that the input had in `before`, multiplied by the window.
    pub open spec fn staged_from<M: Fn(T, T) -> T>(&self, before: &Self, mul: M) -> bool {
        forall|k: int|
            0 <= k < before.input_count() ==> #[trigger] self.input_staged(k) == windowed(
                mul,
                before.input_ring(k),
                before.window_table(),
            )
    }

    /// The node buffers of the two graphs are the same.
    pub open spec fn same_node_buffers(&self, other: &Self) -> bool {
        forall|d: int|
            0 <= d < other.node_count() ==> #[trigger] self.node_buffers(d) == other.node_buffers(
                d,
            )
    }

    /// If every ring buffer has grown by `grown`, so has the shortest.
    proof fn lemma_shortest_grows(a: &Self, b: &Self, count: nat, grown: nat)
        requires
            count <= a.input_count() == b.input_count(),
            count > 0,
            forall|k: int|
                0 <= k < count ==> (#[trigger] b.input_ring(k)).len() == a.input_ring(k).len()
                    + grown,
            forall|k: int| 0 <= k < count ==> (#[trigger] b.input_ring(k)).len() <= usize::MAX,
        ensures
            b.shortest_among(count) == a.shortest_among(count) + grown,
        decreases count,
    {
        assert(b.input_ring(count - 1).len() == a.input_ring(count - 1).len() + grown);
        if count > 1 {
            Self::lemma_shortest_grows(a, b, (count - 1) as nat, grown);
        } else {
            assert(b.shortest_among(0) == usize::MAX);
            assert(a.shortest_among(0) == usize::MAX);
        }
    }

    /// The shortest ring buffer is no longer than any.
    proof fn lemma_shortest_is_least(a: &Self, count: nat, k: int)
        requires
            0 <= k < count <= a.input_count(),
        ensures
            a.shortest_among(count) <= a.input_ring(k).len(),
        decreases count,
    {
        if k < count - 1 {
            Self::lemma_shortest_is_least(a, (count - 1) as nat, k);
        }
    }

    /// Ingest: every audio input takes in the first `block()`
    /// samples of its block. Returns the length of the shortest ring buffer.
    fn ingest_block(&mut self, blocks: &Vec<Vec<T>>) -> (shortest: usize)
        requires
            old(self).wf(),
            old(self).input_count() > 0,
            blocks@.len() >= old(self).input_count(),
            forall|k: int|
                0 <= k < old(self).input_count() ==> (#[trigger] blocks@[k])@.len() >= old(
                    self,
                ).block(),
        ensures
            final(self).wf(),
            final(self).same_shape(old(self)),
            final(self).same_settings(old(self)),
            final(self).same_audio_outputs(old(self)),
            final(self).same_node_buffers(old(self)),
            final(self).inputs_advanced(old(self), blocks@, 0),
            shortest == final(self).shortest_input(),
            shortest == old(self).shortest_input() + old(self).block(),
    {
        proof {
            Self::lemma_shape_kept_refl(old(self));
        }
        let count = self.inputs.len();
        let block = self.block_size;
        let mut shortest: usize = usize::MAX;
        let mut k: usize = 0;
        while k < count
            invariant
                old(self).wf(),
                Self::shape_kept(old(self), self),
                self.outputs == old(self).outputs,
                self.buffers == old(self).buffers,
                self.sample_rate == old(self).sample_rate,
                self.block_size == old(self).block_size == block,
                count == self.inputs@.len(),
                k <= count,
                blocks@.len() >= count,
                forall|j: int| 0 <= j < count ==> (#[trigger] blocks@[j])@.len() >= block,
                forall|j: int|
                    0 <= j < k ==> (#[trigger] self.inputs@[j]).ring() == old(self).inputs@[j].ring()
                        + blocks@[j]@.take(block as int),
                forall|j: int| k <= j < count ==> #[trigger] self.inputs@[j] == old(self).inputs@[j],
                shortest == self.shortest_among(k as nat),
            decreases count - k,
        {
            let ghost before = *self;
            self.inputs[k].ingest(&blocks[k], block);
            let len = self.inputs[k].len();
            if len < shortest {
                shortest = len;
            }
            k += 1;
            proof {
                Self::lemma_shortest_same_prefix(&before, self, (k - 1) as nat);
            }
        }
        proof {
            Self::lemma_wf_carries(old(self), self);
            Self::lemma_same_output_tables(self, old(self));
            assert forall|j: int| 0 <= j < old(self).input_count() implies #[trigger] self.input_ring(
                j,
            ) == (old(self).input_ring(j) + blocks@[j]@.take(old(self).block() as int)).skip(
                (0 * old(self).hop()) as int,
            ) by {
                let h = old(self).hop();
                assert(0 * h == 0) by (nonlinear_arith);
                assert(self.inputs@[j].ring() == old(self).inputs@[j].ring() + blocks@[j]@.take(
                    block as int,
                ));
                assert(self.input_ring(j).skip(0) =~= self.input_ring(j));
            }
            assert forall|j: int| 0 <= j < count implies (#[trigger] self.input_ring(j)).len()
                == old(self).input_ring(j).len() + block by {
                assert(self.inputs@[j].ring() == old(self).inputs@[j].ring() + blocks@[j]@.take(
                    block as int,
                ));
            }
            assert forall|j: int| 0 <= j < count implies (#[trigger] self.input_ring(j)).len()
                <= usize::MAX by {
                Self::lemma_ring_fits(self, j);
            }
            Self::lemma_shortest_grows(old(self), self, count as nat, block as nat);
        }
        shortest
    }

    /// A ring buffer is no longer than the largest length there is.
    proof fn lemma_ring_fits(a: &Self, k: int)
        requires
            0 <= k < a.input_count(),
        ensures
            a.input_ring(k).len() <= usize::MAX,
    {
        a.inputs@[k].lemma_ring_fits();
    }

    /// Two graphs whose first `count` ring buffers are alike have the same
    /// shortest among them.
    proof fn lemma_shortest_same_prefix(a: &Self, b: &Self, count: nat)
        requires
            count <= a.input_count(),
            count <= b.input_count(),
            forall|k: int| 0 <= k < count ==> #[trigger] b.inputs@[k] == a.inputs@[k],
        ensures
            b.shortest_among(count) == a.shortest_among(count),
        decreases count,
    {
        if count > 0 {
            assert(b.inputs@[count - 1] == a.inputs@[count - 1]);
            Self::lemma_shortest_same_prefix(a, b, (count - 1) as nat);
        }
    }

    /// The error for a node whose output buffer at port 0 is not the frame
    /// that the graph has to read or write there.
    fn buffer_mismatch(&self, node_id: usize) -> (r: ProcessorError)
        requires
            node_id < self.node_count(),
        ensures
            Self::is_mismatch_of(r, self.node_label(node_id as int)),
    {
        ProcessorError::SubGraphError(
            Box::new(
                ProcessNodeError {
                    node_name: self.nodes[node_id].name().to_owned(),
                    error: ProcessorError::OutputSpecMismatch(0),
                },
            ),
        )
    }

    /// `error` says that the output buffer at port 0 of the node called
    /// `label` is not the frame that the graph has to read or write there.
    pub open spec fn is_mismatch_of(error: ProcessorError, label: Seq<char>) -> bool {
        error matches ProcessorError::SubGraphError(failure) && failure.node_name@ == label
            && failure.error == ProcessorError::OutputSpecMismatch(0)
    }

    /// The output buffer at port 0 of node `d` is an audio frame of the
    /// transform length.
    pub open spec fn holds_audio_frame(&self, d: int) -> bool {
        &&& self.node_buffers(d).len() > 0
        &&& self.node_buffers(d)[0].audio() matches Some(samples) && samples.len()
            == self.fft_len()
    }

    /// Staging: for every audio input, the first frame of its
    /// ring buffer, multiplied by the window, is written into output buffer 0
    /// of the input's stub node. Nothing is written to a stub whose buffer is
    /// not an audio frame of the transform length, and that is an error.
    fn stage_inputs<M: Fn(T, T) -> T>(&mut self, mul: &M) -> (r: Result<(), ProcessorError>)
        requires
            old(self).wf(),
            is_operation(*mul),
            forall|k: int|
                0 <= k < old(self).input_count() ==> (#[trigger] old(self).input_ring(k)).len()
                    >= old(self).fft_len(),
        ensures
            final(self).wf(),
            final(self).same_shape(old(self)),
            final(self).same_settings(old(self)),
            final(self).same_audio_inputs(old(self)),
            final(self).same_audio_outputs(old(self)),
            r is Ok ==> final(self).staged_from(old(self), *mul),
            r is Ok <==> forall|k: int|
                0 <= k < old(self).input_count() ==> old(self).holds_audio_frame(
                    #[trigger] old(self).input_stub(k),
                ),
            r is Ok ==> forall|k: int|
                0 <= k < old(self).input_count() ==> (#[trigger] final(self).node_buffers(
                    old(self).input_stub(k),
                ))[0].audio() == Some(
                    windowed(*mul, old(self).input_ring(k), old(self).window_table()),
                ),
            r matches Err(error) ==> exists|k: int|
                0 <= k < old(self).input_count() && Self::is_mismatch_of(
                    error,
                    old(self).node_label(#[trigger] old(self).input_stub(k)),
                ),
    {
        proof {
            Self::lemma_shape_kept_refl(old(self));
        }
        let count = self.inputs.len();
        let mut k: usize = 0;
        while k < count
            invariant
                old(self).wf(),
                is_operation(*mul),
                Self::shape_kept(old(self), self),
                self.outputs == old(self).outputs,
                self.sample_rate == old(self).sample_rate,
                self.block_size == old(self).block_size,
                count == self.inputs@.len(),
                k <= count,
                forall|j: int|
                    0 <= j < count ==> (#[trigger] self.inputs@[j]).ring() == old(
                        self,
                    ).inputs@[j].ring(),
                forall|j: int|
                    0 <= j < count ==> (#[trigger] old(self).input_ring(j)).len() >= old(
                        self,
                    ).fft_len(),
                forall|j: int|
                    0 <= j < k ==> (#[trigger] self.inputs@[j]).staged() == windowed(
                        *mul,
                        old(self).input_ring(j),
                        old(self).window_table(),
                    ),
                forall|j: int|
                    0 <= j < k ==> old(self).holds_audio_frame(#[trigger] old(self).input_stub(j)),
                forall|j: int|
                    0 <= j < k ==> (#[trigger] self.buffers@[old(self).input_stub(
                        j,
                    )])@[0].audio() == Some(
                        windowed(*mul, old(self).input_ring(j), old(self).window_table()),
                    ),
                forall|d: int|
                    0 <= d < self.buffers@.len() && (k == 0 || d > old(self).input_stub(k - 1))
                        ==> #[trigger] self.buffers@[d] == old(self).buffers@[d],
            decreases count - k,
        {
            assert(old(self).input_ring(k as int).len() >= old(self).fft_len());
            assert(old(self).input_stub(k as int) < old(self).node_count());
            assert(k > 0 ==> old(self).input_stub(k - 1) < old(self).input_stub(k as int));
            self.inputs[k].stage_frame(&self.window, mul);
            let stub = self.input_nodes[k];
            let written = if self.buffers[stub].len() > 0 {
                self.buffers[stub][0].write_audio(self.inputs[k].time_domain())
            } else {
                false
            };
            if !written {
                let error = self.buffer_mismatch(stub);
                proof {
                    Self::lemma_wf_carries(old(self), self);
                    Self::lemma_same_output_tables(self, old(self));
                    assert(!old(self).holds_audio_frame(old(self).input_stub(k as int)));
                    assert(self.node_label(stub as int) == old(self).node_label(stub as int));
                }
                return Err(error);
            }
            proof {
                assert forall|j: int| 0 <= j < k implies (#[trigger] self.buffers@[old(
                    self,
                ).input_stub(j)])@[0].audio() == Some(
                    windowed(*mul, old(self).input_ring(j), old(self).window_table()),
                ) by {
                    assert(old(self).input_stub(j) < old(self).input_stub(k as int));
                }
            }
            k += 1;
        }
        proof {
            Self::lemma_wf_carries(old(self), self);
            Self::lemma_same_output_tables(self, old(self));
        }
        Ok(())
    }

    /// Advance: every audio input drops the first hop of its
    /// ring buffer.
    fn advance_inputs(&mut self)
        requires
            old(self).wf(),
            forall|k: int|
                0 <= k < old(self).input_count() ==> (#[trigger] old(self).input_ring(k)).len()
                    >= old(self).hop(),
        ensures
            final(self).wf(),
            final(self).same_shape(old(self)),
            final(self).same_settings(old(self)),
            final(self).same_audio_outputs(old(self)),
            final(self).same_node_buffers(old(self)),
            final(self).same_staged(old(self)),
            forall|k: int|
                0 <= k < old(self).input_count() ==> #[trigger] final(self).input_ring(k) == old(
                    self,
                ).input_ring(k).skip(old(self).hop() as int),
    {
        proof {
            Self::lemma_shape_kept_refl(old(self));
        }
        let count = self.inputs.len();
        let hop = self.hop_length;
        let mut k: usize = 0;
        while k < count
            invariant
                old(self).wf(),
                Self::shape_kept(old(self), self),
                self.outputs == old(self).outputs,
                self.buffers == old(self).buffers,
                self.sample_rate == old(self).sample_rate,
                self.block_size == old(self).block_size,
                hop == old(self).hop_length,
                count == self.inputs@.len(),
                k <= count,
                forall|j: int|
                    0 <= j < count ==> (#[trigger] old(self).input_ring(j)).len() >= hop,
                forall|j: int|
                    0 <= j < k ==> (#[trigger] self.inputs@[j]).ring() == old(
                        self,
                    ).inputs@[j].ring().skip(hop as int),
                forall|j: int| k <= j < count ==> #[trigger] self.inputs@[j] == old(self).inputs@[j],
                forall|j: int|
                    0 <= j < k ==> (#[trigger] self.inputs@[j]).staged() == old(
                        self,
                    ).inputs@[j].staged(),
            decreases count - k,
        {
            assert(old(self).input_ring(k as int).len() >= hop);
            self.inputs[k].advance(hop);
            k += 1;
        }
        proof {
            Self::lemma_wf_carries(old(self), self);
            Self::lemma_same_output_tables(self, old(self));
        }
    }

    /// `error` is the failure of a node of this graph, under the node's name.
    pub open spec fn is_failure_of_node(&self, error: ProcessorError) -> bool {
        error matches ProcessorError::SubGraphError(failure) && exists|d: int|
            0 <= d < self.node_count() && failure.node_name@ == #[trigger] self.node_label(d)
    }

    /// Traversal: every node processes one frame, in the order of
    /// the graph. The first failure ends the walk and comes back wrapped, with
    /// the name of the node that failed.
    fn traverse(&mut self) -> (r: Result<(), ProcessorError>)
        requires
            old(self).wf(),
        ensures
            final(self).wf(),
            final(self).same_shape(old(self)),
            final(self).same_settings(old(self)),
            final(self).same_audio_inputs(old(self)),
            final(self).same_audio_outputs(old(self)),
            final(self).same_staged(old(self)),
            r matches Err(error) ==> old(self).is_failure_of_node(error),
            old(self).node_count() == 0 ==> r is Ok,
    {
        let steps = self.visit_path.len();
        let mut i: usize = 0;
        while i < steps
            invariant
                old(self).wf(),
                self.wf(),
                self.same_shape(old(self)),
                self.same_settings(old(self)),
                self.same_audio_inputs(old(self)),
                self.same_audio_outputs(old(self)),
                self.same_staged(old(self)),
                steps == self.order().len(),
                i <= steps,
            decreases steps - i,
        {
            let node_id = self.visit_path[i];
            assert(self.order()[i as int] < self.edges().len());
            let ghost before = *self;
            let outcome = self.process_node(node_id);
            proof {
                Self::lemma_same_shape_trans(old(self), &before, self);
                Self::lemma_keeps_inputs_trans(old(self), &before, self);
                Self::lemma_keeps_outputs_trans(old(self), &before, self);
                assert forall|k: int| 0 <= k < old(self).input_count() implies #[trigger] self.input_staged(
                    k,
                ) == old(self).input_staged(k) by {
                    assert(before.input_staged(k) == old(self).input_staged(k));
                }
            }
            match sub_graph_outcome(outcome) {
                Ok(_) => {},
                Err(error) => {
                    proof {
                        assert(before.node_label(node_id as int) == old(self).node_label(
                            node_id as int,
                        ));
                    }
                    return Err(error);
                },
            }
            i += 1;
        }
        Ok(())
    }

    /// Having the same shape carries over a chain of graphs.
    pub proof fn lemma_same_shape_trans(a: &Self, b: &Self, c: &Self)
        requires
            b.same_shape(a),
            c.same_shape(b),
        ensures
            c.same_shape(a),
    {
        Self::lemma_keeps_nodes_trans(a, b, c);
        assert forall|k: int| 0 <= k < c.input_count() implies #[trigger] c.input_stub(k)
            == a.input_stub(k) by {
            assert(b.input_stub(k) == a.input_stub(k));
        }
        assert forall|k: int| 0 <= k < c.output_count() implies #[trigger] c.output_node(k)
            == a.output_node(k) by {
            assert(b.output_node(k) == a.output_node(k));
        }
    }

    /// The frame that audio output `k` reads: the samples in output buffer 0
    /// of its node.
    pub open spec fn output_frame(&self, k: int) -> Seq<T> {
        self.node_buffers(self.output_node(k))[0].audio().unwrap()
    }

    /// Whether every audio output can read its frame: the first that cannot
    /// is reported.
    fn outputs_readable(&self) -> (r: Result<(), ProcessorError>)
        requires
            self.wf(),
        ensures
            r is Ok <==> forall|k: int|
                0 <= k < self.output_count() ==> self.holds_audio_frame(
                    #[trigger] self.output_node(k),
                ),
            r matches Err(error) ==> exists|k: int|
                0 <= k < self.output_count() && Self::is_mismatch_of(
                    error,
                    self.node_label(#[trigger] self.output_node(k)),
                ),
    {
        let count = self.outputs.len();
        let mut k: usize = 0;
        while k < count
            invariant
                self.wf(),
                count == self.outputs@.len(),
                k <= count,
                forall|j: int|
                    0 <= j < k ==> self.holds_audio_frame(#[trigger] self.output_node(j)),
            decreases count - k,
        {
            let node = self.output_nodes[k];
            assert(self.output_node(k as int) < self.node_count());
            let readable = if self.buffers[node].len() > 0 {
                match self.buffers[node][0].as_audio() {
                    Some(frame) => frame.len() == self.n_fft,
                    None => false,
                }
            } else {
                false
            };
            if !readable {
                assert(!self.holds_audio_frame(self.output_node(k as int)));
                return Err(self.buffer_mismatch(node));
            }
            k += 1;
        }
        Ok(())
    }

    /// Overlap-add and emit: for every audio output, the frame in
    /// output buffer 0 of its node, multiplied by the window, is summed into
    /// the overlap buffer, and the first hop of the overlap buffer moves to
    /// the ring buffer. If one of the frames is not an audio frame of the
    /// transform length, nothing is done at all, and that is an error.
    fn collect_outputs<M: Fn(T, T) -> T, A: Fn(T, T) -> T>(&mut self, mul: &M, add: &A) -> (r:
        Result<(), ProcessorError>)
        requires
            old(self).wf(),
            is_operation(*mul),
            is_operation(*add),
        ensures
            final(self).wf(),
            final(self).same_shape(old(self)),
            final(self).same_settings(old(self)),
            final(self).same_audio_inputs(old(self)),
            final(self).same_node_buffers(old(self)),
            final(self).same_staged(old(self)),
            r is Ok <==> forall|k: int|
                0 <= k < old(self).output_count() ==> old(self).holds_audio_frame(
                    #[trigger] old(self).output_node(k),
                ),
            r is Ok ==> forall|k: int|
                0 <= k < old(self).output_count() ==> #[trigger] final(self).output_ring(k) == old(
                    self,
                ).output_ring(k) + emitted(
                    *mul,
                    *add,
                    old(self).overlap(k),
                    old(self).output_frame(k),
                    old(self).window_table(),
                    old(self).hop(),
                ),
            r is Ok ==> forall|k: int|
                0 <= k < old(self).output_count() ==> #[trigger] final(self).overlap(k)
                    == carried_over(
                    *mul,
                    *add,
                    old(self).overlap(k),
                    old(self).output_frame(k),
                    old(self).window_table(),
                    old(self).hop(),
                    old(self).silent(),
                ),
            r matches Err(error) ==> final(self).same_audio_outputs(old(self)) && exists|k: int|
                0 <= k < old(self).output_count() && Self::is_mismatch_of(
                    error,
                    old(self).node_label(#[trigger] old(self).output_node(k)),
                ),
    {
        match self.outputs_readable() {
            Err(error) => {
                proof {
                    Self::lemma_same_tables(self, old(self));
                    Self::lemma_same_output_tables(self, old(self));
                }
                return Err(error);
            },
            Ok(_) => {},
        }
        proof {
            Self::lemma_shape_kept_refl(old(self));
        }
        let count = self.outputs.len();
        let hop = self.hop_length;
        let zero = self.zero;
        let mut k: usize = 0;
        while k < count
            invariant
                old(self).wf(),
                is_operation(*mul),
                is_operation(*add),
                Self::shape_kept(old(self), self),
                self.inputs == old(self).inputs,
                self.buffers == old(self).buffers,
                self.nodes == old(self).nodes,
                self.sample_rate == old(self).sample_rate,
                self.block_size == old(self).block_size,
                hop == old(self).hop_length,
                zero == old(self).zero,
                count == self.outputs@.len(),
                k <= count,
                forall|j: int|
                    0 <= j < count ==> old(self).holds_audio_frame(
                        #[trigger] old(self).output_node(j),
                    ),
                forall|j: int|
                    0 <= j < k ==> (#[trigger] self.outputs@[j]).ring() == old(
                        self,
                    ).outputs@[j].ring() + emitted(
                        *mul,
                        *add,
                        old(self).overlap(j),
                        old(self).output_frame(j),
                        old(self).window_table(),
                        old(self).hop(),
                    ),
                forall|j: int|
                    0 <= j < k ==> (#[trigger] self.outputs@[j]).overlap() == carried_over(
                        *mul,
                        *add,
                        old(self).overlap(j),
                        old(self).output_frame(j),
                        old(self).window_table(),
                        old(self).hop(),
                        old(self).silent(),
                    ),
                forall|j: int|
                    k <= j < count ==> #[trigger] self.outputs@[j] == old(self).outputs@[j],
            decreases count - k,
        {
            let node = self.output_nodes[k];
            assert(old(self).holds_audio_frame(old(self).output_node(k as int)));
            assert(old(self).output_node(k as int) < old(self).node_count());
            assert(old(self).overlap(k as int).len() == old(self).fft_len());
            match self.buffers[node][0].as_audio() {
                Some(frame) => {
                    self.outputs[k].overlap_add(frame, &self.window, mul, add);
                    self.outputs[k].emit_hop(hop, zero);
                },
                None => {},
            }
            k += 1;
        }
        proof {
            Self::lemma_wf_carries(old(self), self);
            Self::lemma_same_tables(self, old(self));
        }
        Ok(())
    }

    /// What the egress of `process` does at audio output `k`, whose block was
    /// `out_before` and is `out_after`. With fewer than `block()` samples
    /// ready the output underruns: its ring buffer and its block stay as they
    /// are. Otherwise the first `block()` samples leave the ring buffer and
    /// take the first `block()` places of the block.
    pub open spec fn drained(&self, before: &Self, k: int, out_before: Seq<T>, out_after: Seq<T>) -> bool {
        if before.output_ring(k).len() < before.block() {
            &&& self.output_ring(k) == before.output_ring(k)
            &&& out_after == out_before
        } else {
            &&& self.output_ring(k) == before.output_ring(k).skip(before.block() as int)
            &&& out_after == before.output_ring(k).take(before.block() as int) + out_before.skip(
                before.block() as int,
            )
        }
    }

    /// Egress: every audio output that has a whole block ready
    /// hands it out.
    fn egress(&mut self, blocks: &mut Vec<Vec<T>>)
        requires
            old(self).wf(),
            old(blocks)@.len() >= old(self).output_count(),
            forall|k: int|
                0 <= k < old(self).output_count() ==> (#[trigger] old(blocks)@[k])@.len() >= old(
                    self,
                ).block(),
        ensures
            final(self).wf(),
            final(self).same_shape(old(self)),
            final(self).same_settings(old(self)),
            final(self).same_audio_inputs(old(self)),
            final(self).same_node_buffers(old(self)),
            final(self).same_staged(old(self)),
            final(blocks)@.len() == old(blocks)@.len(),
            forall|k: int|
                0 <= k < old(self).output_count() ==> #[trigger] final(self).overlap(k) == old(
                    self,
                ).overlap(k),
            forall|k: int|
                0 <= k < old(self).output_count() ==> final(self).drained(
                    old(self),
                    k,
                    old(blocks)@[k]@,
                    (#[trigger] final(blocks)@[k])@,
                ),
            forall|k: int|
                old(self).output_count() <= k < old(blocks)@.len() ==> #[trigger] final(blocks)@[k]
                    == old(blocks)@[k],
            forall|k: int|
                0 <= k < old(self).output_count() ==> #[trigger] final(self).block_handed_out(k)
                    == (old(self).output_ring(k).len() >= old(self).block()),
    {
        proof {
            Self::lemma_shape_kept_refl(old(self));
        }
        let count = self.outputs.len();
        let block = self.block_size;
        let mut k: usize = 0;
        while k < count
            invariant
                old(self).wf(),
                Self::shape_kept(old(self), self),
                self.inputs == old(self).inputs,
                self.buffers == old(self).buffers,
                self.nodes == old(self).nodes,
                self.sample_rate == old(self).sample_rate,
                self.block_size == old(self).block_size == block,
                count == self.outputs@.len(),
                k <= count,
                blocks@.len() == old(blocks)@.len() >= count,
                forall|j: int| 0 <= j < count ==> (#[trigger] old(blocks)@[j])@.len() >= block,
                forall|j: int|
                    0 <= j < k ==> (#[trigger] self.outputs@[j]).overlap() == old(
                        self,
                    ).outputs@[j].overlap(),
                forall|j: int|
                    0 <= j < k ==> self.drained(
                        old(self),
                        j,
                        old(blocks)@[j]@,
                        (#[trigger] blocks@[j])@,
                    ),
                forall|j: int|
                    k <= j < count ==> #[trigger] self.outputs@[j] == old(self).outputs@[j],
                forall|j: int|
                    k <= j < blocks@.len() ==> #[trigger] blocks@[j] == old(blocks)@[j],
                self.handed_out@.len() == count,
                forall|j: int|
                    0 <= j < k ==> #[trigger] self.handed_out@[j] == (old(self).outputs@[j].ring().len()
                        >= block),
            decreases count - k,
        {
            let ghost before = *self;
            let ghost blocks_before = blocks@;
            assert(old(blocks)@[k as int]@.len() >= block);
            let handed = self.outputs[k].drain_block(block, &mut blocks[k]);
            self.handed_out.set(k, handed);
            proof {
                assert forall|j: int| 0 <= j < k implies self.drained(
                    old(self),
                    j,
                    old(blocks)@[j]@,
                    (#[trigger] blocks@[j])@,
                ) by {
                    assert(before.drained(old(self), j, old(blocks)@[j]@, blocks_before[j]@));
                    assert(self.outputs@[j] == before.outputs@[j]);
                    assert(blocks@[j] == blocks_before[j]);
                }
            }
            k += 1;
        }
        proof {
            Self::lemma_wf_carries(old(self), self);
            Self::lemma_same_tables(self, old(self));
        }
    }

    /// The stub of every audio input holds an audio frame of the transform
    /// length in its output buffer 0, so that a frame can be staged.
    pub open spec fn stubs_ready(&self) -> bool {
        forall|k: int|
            0 <= k < self.input_count() ==> self.holds_audio_frame(#[trigger] self.input_stub(k))
    }

    /// `error` says that the stub of an audio input does not hold the frame
    /// that the graph has to write there.
    pub open spec fn is_stub_mismatch(&self, error: ProcessorError) -> bool {
        exists|k: int|
            0 <= k < self.input_count() && Self::is_mismatch_of(
                error,
                self.node_label(#[trigger] self.input_stub(k)),
            )
    }

    /// Every audio input has dropped one hop since `before`.
    pub open spec fn inputs_hopped(&self, before: &Self) -> bool {
        &&& self.input_count() == before.input_count()
        &&& forall|k: int|
            0 <= k < before.input_count() ==> #[trigger] self.input_ring(k) == before.input_ring(
                k,
            ).skip(before.hop() as int)
    }

    /// Every audio output has summed the frame that its node holds now into
    /// the overlap buffer that it had in `before`, and has moved one hop of
    /// it to its ring buffer.
    pub open spec fn outputs_hopped<M: Fn(T, T) -> T, A: Fn(T, T) -> T>(
        &self,
        before: &Self,
        mul: M,
        add: A,
    ) -> bool {
        &&& self.output_count() == before.output_count()
        &&& forall|k: int|
            0 <= k < before.output_count() ==> #[trigger] self.output_ring(k) == before.output_ring(
                k,
            ) + emitted(
                mul,
                add,
                before.overlap(k),
                self.output_frame(k),
                before.window_table(),
                before.hop(),
            )
        &&& forall|k: int|
            0 <= k < before.output_count() ==> #[trigger] self.overlap(k) == carried_over(
                mul,
                add,
                before.overlap(k),
                self.output_frame(k),
                before.window_table(),
                before.hop(),
                before.silent(),
            )
    }

    /// Runs one frame: stages the first frame of every
    /// audio input, advances the inputs by one hop, lets every node process
    /// the frame, and collects one hop at every audio output.
    ///
    /// A frame cannot be staged where the stub of an audio input does not
    /// hold an audio frame of the transform length: that is a failure, and it
    /// leaves the graph's inputs and outputs as they were. A failure of a
    /// node, or of an output that cannot read its frame, comes after every
    /// input has dropped its hop, and leaves the audio outputs as they were.
    pub fn run_frame<M: Fn(T, T) -> T, A: Fn(T, T) -> T>(&mut self, mul: &M, add: &A) -> (r:
        Result<(), ProcessorError>)
        requires
            old(self).wf(),
            is_operation(*mul),
            is_operation(*add),
            forall|k: int|
                0 <= k < old(self).input_count() ==> (#[trigger] old(self).input_ring(k)).len()
                    >= old(self).fft_len(),
        ensures
            final(self).wf(),
            final(self).same_shape(old(self)),
            final(self).same_settings(old(self)),
            r is Ok ==> final(self).inputs_hopped(old(self)),
            r is Ok ==> final(self).outputs_hopped(old(self), *mul, *add),
            r is Err ==> final(self).same_audio_outputs(old(self)),
            !old(self).stubs_ready() ==> r is Err && final(self).same_audio_inputs(old(self)),
            !old(self).stubs_ready() ==> (r matches Err(error) && old(self).is_stub_mismatch(error)),
            old(self).stubs_ready() && r is Err ==> final(self).inputs_hopped(old(self)),
            old(self).stubs_ready() ==> final(self).staged_from(old(self), *mul),
            r matches Err(error) ==> old(self).is_failure_of_node(error),
    {
        let staged = self.stage_inputs(mul);
        let ghost first = *self;
        match staged {
            Err(error) => {
                return Err(error);
            },
            Ok(_) => {},
        }
        proof {
            assert forall|k: int| 0 <= k < self.input_count() implies (#[trigger] self.input_ring(
                k,
            )).len() >= self.hop() by {
                assert(self.input_ring(k) == old(self).input_ring(k));
                assert(old(self).input_ring(k).len() >= old(self).fft_len());
            }
        }
        self.advance_inputs();
        let ghost second = *self;
        proof {
            Self::lemma_same_shape_trans(old(self), &first, &second);
            Self::lemma_keeps_outputs_trans(old(self), &first, &second);
            assert forall|k: int| 0 <= k < old(self).input_count() implies #[trigger] second.input_ring(
                k,
            ) == old(self).input_ring(k).skip(old(self).hop() as int) by {
                assert(first.input_ring(k) == old(self).input_ring(k));
            }
        }
        let walked = self.traverse();
        let ghost third = *self;
        proof {
            Self::lemma_same_shape_trans(old(self), &second, &third);
            Self::lemma_keeps_outputs_trans(old(self), &second, &third);
            assert forall|k: int| 0 <= k < old(self).input_count() implies #[trigger] third.input_ring(
                k,
            ) == old(self).input_ring(k).skip(old(self).hop() as int) by {
                assert(third.input_ring(k) == second.input_ring(k));
            }
        }
        match walked {
            Err(error) => {
                proof {
                    Self::lemma_failure_carries(old(self), &second, error);
                }
                return Err(error);
            },
            Ok(_) => {},
        }
        let collected = self.collect_outputs(mul, add);
        proof {
            Self::lemma_same_shape_trans(old(self), &third, self);
            assert forall|k: int| 0 <= k < old(self).input_count() implies #[trigger] self.input_ring(
                k,
            ) == old(self).input_ring(k).skip(old(self).hop() as int) by {
                assert(self.input_ring(k) == third.input_ring(k));
            }
        }
        match collected {
            Err(error) => {
                proof {
                    Self::lemma_keeps_outputs_trans(old(self), &third, self);
                    let k = choose|k: int|
                        0 <= k < third.output_count() && Self::is_mismatch_of(
                            error,
                            third.node_label(#[trigger] third.output_node(k)),
                        );
                    assert(third.output_node(k) < third.node_count());
                    assert(third.node_label(third.output_node(k)) == old(self).node_label(
                        third.output_node(k),
                    ));
                }
                Err(error)
            },
            Ok(_) => {
                proof {
                    assert forall|k: int| 0 <= k < old(self).output_count() implies #[trigger] self.output_ring(
                        k,
                    ) == old(self).output_ring(k) + emitted(
                        *mul,
                        *add,
                        old(self).overlap(k),
                        self.output_frame(k),
                        old(self).window_table(),
                        old(self).hop(),
                    ) by {
                        assert(third.output_ring(k) == old(self).output_ring(k));
                        assert(third.overlap(k) == old(self).overlap(k));
                        assert(third.output_node(k) == self.output_node(k));
                        assert(third.output_node(k) < third.node_count());
                        assert(self.node_buffers(third.output_node(k)) == third.node_buffers(
                            third.output_node(k),
                        ));
                    }
                    assert forall|k: int| 0 <= k < old(self).output_count() implies #[trigger] self.overlap(
                        k,
                    ) == carried_over(
                        *mul,
                        *add,
                        old(self).overlap(k),
                        self.output_frame(k),
                        old(self).window_table(),
                        old(self).hop(),
                        old(self).silent(),
                    ) by {
                        assert(third.output_ring(k) == old(self).output_ring(k));
                        assert(third.overlap(k) == old(self).overlap(k));
                        assert(third.output_node(k) == self.output_node(k));
                        assert(third.output_node(k) < third.node_count());
                        assert(self.node_buffers(third.output_node(k)) == third.node_buffers(
                            third.output_node(k),
                        ));
                    }
                }
                Ok(())
            },
        }
    }

    /// The failure of a node of a graph is the failure of a node of any graph
    /// of the same shape.
    proof fn lemma_failure_carries(a: &Self, b: &Self, error: ProcessorError)
        requires
            b.same_shape(a),
            b.is_failure_of_node(error),
        ensures
            a.is_failure_of_node(error),
    {
        if let ProcessorError::SubGraphError(failure) = error {
            let d = choose|d: int|
                0 <= d < b.node_count() && failure.node_name@ == #[trigger] b.node_label(d);
            assert(a.node_label(d) == b.node_label(d));
        }
    }

    /// The number of frames that the next call of `process` runs: as many as
    /// the shortest input ring buffer yields once every input has taken in
    /// its block.
    pub open spec fn frames_due(&self) -> nat {
        frames_ready(self.shortest_input() + self.block(), self.fft_len(), self.hop())
    }

    /// What `process` does at audio output `k` when it runs `frames` frames,
    /// where the output's block was `out_before` and is `out_after`. Each
    /// frame adds one hop to the ring buffer behind what was there. With
    /// fewer than `block()` samples then ready the output underruns and its
    /// block stays as it is; otherwise the oldest `block()` samples move to
    /// the first `block()` places of the block.
    pub open spec fn played(
        &self,
        before: &Self,
        k: int,
        out_before: Seq<T>,
        out_after: Seq<T>,
        frames: nat,
    ) -> bool {
        let total = before.output_ring(k).len() + frames * before.hop();
        let block = before.block() as int;
        if total < block {
            &&& out_after == out_before
            &&& self.output_ring(k).len() == total
            &&& before.output_ring(k).is_prefix_of(self.output_ring(k))
        } else {
            let stream = out_after.take(block) + self.output_ring(k);
            &&& out_after.len() == out_before.len()
            &&& out_after.skip(block) == out_before.skip(block)
            &&& stream.len() == total
            &&& before.output_ring(k).is_prefix_of(stream)
        }
    }

    /// Every audio output has gained `frames` hops behind what its ring
    /// buffer held in `before`.
    pub open spec fn outputs_grew(&self, before: &Self, frames: nat) -> bool {
        &&& self.output_count() == before.output_count()
        &&& forall|k: int|
            0 <= k < before.output_count() ==> (#[trigger] self.output_ring(k)).len()
                == before.output_ring(k).len() + frames * before.hop()
        &&& forall|k: int|
            0 <= k < before.output_count() ==> before.output_ring(k).is_prefix_of(
                #[trigger] self.output_ring(k),
            )
    }

    /// The last hop of every overlap buffer is silence.
    pub open spec fn overlap_tails_silent(&self) -> bool {
        forall|k: int|
            0 <= k < self.output_count() ==> (#[trigger] self.overlap(k)).skip(
                self.fft_len() - self.hop(),
            ) == silence(self.hop(), self.silent())
    }

    /// How a call of `process` that failed has left the graph, where `done`
    /// frames had run through before the one that failed. Every output ring
    /// has gained the hops of those frames and no more. The frame that failed
    /// had either taken its hop from every input, or had not been staged
    /// because a stub did not hold its frame; in the first frame that is so
    /// only where a stub did not hold its frame before the call.
    pub open spec fn failed_after(&self, before: &Self, blocks: Seq<Vec<T>>, done: nat) -> bool {
        &&& self.outputs_grew(before, done)
        &&& done == 0 ==> self.same_audio_outputs(before)
        &&& done > 0 ==> self.overlap_tails_silent()
        &&& self.inputs_advanced(before, blocks, done + 1) || (self.inputs_advanced(
            before,
            blocks,
            done,
        ) && (done > 0 || !before.stubs_ready()))
    }

    /// The frame staged last at every audio input is the frame of the last of
    /// `frames` frames: the input's ring buffer as it was in `before`, with
    /// the first `block()` samples of its block in `blocks` behind it and one
    /// hop dropped for each frame before the last, multiplied by the window.
    pub open spec fn staged_last<M: Fn(T, T) -> T>(
        &self,
        before: &Self,
        blocks: Seq<Vec<T>>,
        frames: nat,
        mul: M,
    ) -> bool {
        forall|k: int|
            0 <= k < before.input_count() ==> #[trigger] self.input_staged(k) == windowed(
                mul,
                (before.input_ring(k) + blocks[k]@.take(before.block() as int)).skip(
                    ((frames - 1) * before.hop()) as int,
                ),
                before.window_table(),
            )
    }

    /// The blocks in `after` are those in `before`.
    pub open spec fn same_blocks(before: Seq<Vec<T>>, after: Seq<Vec<T>>) -> bool {
        &&& after.len() == before.len()
        &&& forall|k: int| 0 <= k < before.len() ==> (#[trigger] after[k])@ == before[k]@
    }

    /// Takes one block of samples for every audio input, runs the graph once
    /// for every frame that has become complete, and hands out one block of
    /// samples at every audio output that has one ready.
    ///
    /// `blocks_in[k]` is the block for audio input `k`, of which the first
    /// `block()` samples are taken in; `blocks_out[k]` is where the block of
    /// audio output `k` is written. `mul` and `add` multiply and add two
    /// samples.
    ///
    /// A graph without audio inputs does nothing. Otherwise the call fails
    /// only where a node fails while a frame runs, and then no block is
    /// handed out.
    pub fn process<M: Fn(T, T) -> T, A: Fn(T, T) -> T>(
        &mut self,
        blocks_in: &Vec<Vec<T>>,
        blocks_out: &mut Vec<Vec<T>>,
        mul: &M,
        add: &A,
    ) -> (r: Result<(), ProcessorError>)
        requires
            old(self).wf(),
            is_operation(*mul),
            is_operation(*add),
            blocks_in@.len() >= old(self).input_count(),
            forall|k: int|
                0 <= k < old(self).input_count() ==> (#[trigger] blocks_in@[k])@.len() >= old(
                    self,
                ).block(),
            old(blocks_out)@.len() >= old(self).output_count(),
            forall|k: int|
                0 <= k < old(self).output_count() ==> (#[trigger] old(blocks_out)@[k])@.len()
                    >= old(self).block(),
        ensures
            final(self).wf(),
            final(self).same_shape(old(self)),
            final(self).same_settings(old(self)),
            final(blocks_out)@.len() == old(blocks_out)@.len(),
            forall|k: int|
                old(self).output_count() <= k < old(blocks_out)@.len() ==> (
                #[trigger] final(blocks_out)@[k])@ == old(blocks_out)@[k]@,
            old(self).input_count() == 0 ==> {
                &&& r is Ok
                &&& final(self).same_audio_outputs(old(self))
                &&& final(self).same_node_buffers(old(self))
                &&& Self::same_blocks(old(blocks_out)@, final(blocks_out)@)
            },
            old(self).input_count() > 0 && old(self).frames_due() == 0 ==> {
                &&& r is Ok
                &&& final(self).same_node_buffers(old(self))
                &&& forall|k: int|
                    0 <= k < old(self).output_count() ==> #[trigger] final(self).overlap(k) == old(
                        self,
                    ).overlap(k)
            },
            old(self).input_count() > 0 && r is Ok ==> {
                &&& final(self).inputs_advanced(old(self), blocks_in@, old(self).frames_due())
                &&& forall|k: int|
                    0 <= k < old(self).output_count() ==> final(self).played(
                        old(self),
                        k,
                        old(blocks_out)@[k]@,
                        (#[trigger] final(blocks_out)@[k])@,
                        old(self).frames_due(),
                    )
            },
            old(self).input_count() > 0 && old(self).frames_due() > 0 && r is Ok
                ==> final(self).overlap_tails_silent(),
            old(self).input_count() > 0 && old(self).frames_due() > 0 && r is Ok
                ==> final(self).staged_last(
                old(self),
                blocks_in@,
                old(self).frames_due(),
                *mul,
            ),
            old(self).input_count() > 0 && r is Ok ==> forall|k: int|
                0 <= k < old(self).output_count() ==> #[trigger] final(self).block_handed_out(k)
                    == (old(self).output_ring(k).len() + old(self).frames_due() * old(self).hop()
                    >= old(self).block()),
            old(self).input_count() == 0 ==> forall|k: int|
                0 <= k < old(self).output_count() ==> #[trigger] final(self).block_handed_out(k)
                    == old(self).block_handed_out(k),
            old(self).input_count() > 0 && old(self).frames_due() > 0 && !old(self).stubs_ready()
                ==> (r matches Err(error) && old(self).is_stub_mismatch(error)),
            r matches Err(error) ==> {
                &&& old(self).is_failure_of_node(error)
                &&& Self::same_blocks(old(blocks_out)@, final(blocks_out)@)
                &&& exists|done: nat|
                    done < old(self).frames_due() && final(self).failed_after(
                        old(self),
                        blocks_in@,
                        done,
                    )
            },
    {
        if self.inputs.len() == 0 {
            proof {
                Self::lemma_same_tables(self, old(self));
                Self::lemma_same_output_tables(self, old(self));
            }
            return Ok(());
        }
        let mut remaining = self.ingest_block(blocks_in);
        let ghost fed = *self;
        let ghost total = fed.shortest_input();
        let ghost frames = old(self).frames_due();
        let ghost mut done: nat = 0;
        let n_fft = self.n_fft;
        let hop = self.hop_length;
        proof {
            assert(frames == frames_ready(total, fed.fft_len(), fed.hop()));
            assert(0 * (hop as nat) == 0) by (nonlinear_arith);
            Self::lemma_same_tables(&fed, &fed);
            Self::lemma_same_output_tables(&fed, &fed);
            assert forall|k: int| 0 <= k < fed.input_count() implies #[trigger] self.input_ring(k)
                == fed.input_ring(k).skip((0 * fed.hop()) as int) by {
                assert(fed.input_ring(k).skip(0) =~= fed.input_ring(k));
            }
            assert forall|k: int| 0 <= k < fed.input_count() implies (#[trigger] fed.input_ring(
                k,
            )).len() >= total by {
                Self::lemma_shortest_is_least(&fed, fed.input_count(), k);
            }
            Self::lemma_stubs_ready_same(old(self), &fed);
        }
        while remaining >= n_fft
            invariant
                old(self).wf(),
                fed.wf(),
                self.wf(),
                is_operation(*mul),
                is_operation(*add),
                fed.same_shape(old(self)),
                fed.same_settings(old(self)),
                self.same_shape(&fed),
                self.same_settings(&fed),
                n_fft == fed.fft_len(),
                hop == fed.hop(),
                total == fed.shortest_input(),
                frames == frames_ready(total, fed.fft_len(), fed.hop()),
                frames == old(self).frames_due(),
                old(self).input_count() > 0,
                fed.inputs_advanced(old(self), blocks_in@, 0),
                done <= frames,
                remaining == total - done * hop,
                done + frames_ready(remaining as nat, n_fft as nat, hop as nat) == frames,
                forall|k: int|
                    0 <= k < fed.input_count() ==> (#[trigger] fed.input_ring(k)).len() >= total,
                forall|k: int|
                    0 <= k < fed.input_count() ==> #[trigger] self.input_ring(k) == fed.input_ring(
                        k,
                    ).skip((done * fed.hop()) as int),
                self.output_count() == fed.output_count(),
                forall|k: int|
                    0 <= k < fed.output_count() ==> (#[trigger] self.output_ring(k)).len()
                        == fed.output_ring(k).len() + done * hop,
                forall|k: int|
                    0 <= k < fed.output_count() ==> fed.output_ring(k).is_prefix_of(
                        #[trigger] self.output_ring(k),
                    ),
                done == 0 ==> self.same_audio_outputs(&fed) && self.same_node_buffers(&fed),
                done > 0 ==> self.overlap_tails_silent() && old(self).stubs_ready(),
                done > 0 ==> forall|k: int|
                    0 <= k < fed.input_count() ==> #[trigger] self.input_staged(k) == windowed(
                        *mul,
                        fed.input_ring(k).skip(((done - 1) * fed.hop()) as int),
                        fed.window_table(),
                    ),
                fed.stubs_ready() == old(self).stubs_ready(),
                fed.same_audio_outputs(old(self)),
                blocks_out@ == old(blocks_out)@,
            decreases remaining,
        {
            let ghost before = *self;
            proof {
                lemma_frames_ready_step(remaining as nat, n_fft as nat, hop as nat);
                assert forall|k: int| 0 <= k < self.input_count() implies (#[trigger] self.input_ring(
                    k,
                )).len() >= self.fft_len() by {
                    assert(fed.input_ring(k).len() >= total);
                    assert(self.input_ring(k) == fed.input_ring(k).skip((done * fed.hop()) as int));
                }
            }
            let outcome = self.run_frame(mul, add);
            proof {
                Self::lemma_same_shape_trans(&fed, &before, self);
                let h = hop as nat;
                let d = done;
                assert((d + 1) * h == d * h + h) by (nonlinear_arith);
                assert(d * h >= 0) by (nonlinear_arith);
                if self.inputs_hopped(&before) {
                    assert forall|k: int| 0 <= k < fed.input_count() implies #[trigger] self.input_ring(
                        k,
                    ) == fed.input_ring(k).skip(((done + 1) * fed.hop()) as int) by {
                        assert(fed.input_ring(k).len() >= total);
                        assert(before.input_ring(k) == fed.input_ring(k).skip((d * h) as int));
                        assert(self.input_ring(k) == before.input_ring(k).skip(h as int));
                        assert(fed.input_ring(k).skip((d * h) as int).skip(h as int)
                            =~= fed.input_ring(k).skip((d * h + h) as int));
                    }
                } else {
                    assert forall|k: int| 0 <= k < fed.input_count() implies #[trigger] self.input_ring(
                        k,
                    ) == fed.input_ring(k).skip((done * fed.hop()) as int) by {
                        assert(self.input_ring(k) == before.input_ring(k));
                    }
                }
            }
            match outcome {
                Err(error) => {
                    proof {
                        Self::lemma_same_shape_trans(old(self), &fed, self);
                        Self::lemma_failure_carries(&fed, &before, error);
                        Self::lemma_failure_carries(old(self), &fed, error);
                        let hops: nat = if self.inputs_hopped(&before) {
                            done + 1
                        } else {
                            done
                        };
                        Self::lemma_advanced_from(old(self), &fed, self, blocks_in@, hops);
                        assert(done < frames);
                        if done == 0 {
                            Self::lemma_stubs_ready_same(&fed, &before);
                            Self::lemma_keeps_outputs_trans(&fed, &before, self);
                            Self::lemma_keeps_outputs_trans(old(self), &fed, self);
                        }
                        assert forall|k: int| 0 <= k < old(self).output_count() implies (
                        #[trigger] self.output_ring(k)).len() == old(self).output_ring(k).len()
                            + done * old(self).hop() && old(self).output_ring(k).is_prefix_of(
                            self.output_ring(k),
                        ) by {
                            assert(self.output_ring(k) == before.output_ring(k));
                            assert(before.output_ring(k).len() == fed.output_ring(k).len() + done
                                * hop);
                            assert(fed.output_ring(k).is_prefix_of(before.output_ring(k)));
                            assert(fed.output_ring(k) == old(self).output_ring(k));
                        }
                        if done > 0 {
                            assert forall|k: int| 0 <= k < self.output_count() implies (
                            #[trigger] self.overlap(k)).skip(self.fft_len() - self.hop())
                                == silence(self.hop(), self.silent()) by {
                                assert(self.overlap(k) == before.overlap(k));
                            }
                        }
                        assert(self.failed_after(old(self), blocks_in@, done));
                    }
                    return Err(error);
                },
                Ok(_) => {},
            }
            proof {
                assert forall|k: int| 0 <= k < fed.output_count() implies (
                #[trigger] self.output_ring(k)).len() == fed.output_ring(k).len() + (done + 1)
                    * hop && fed.output_ring(k).is_prefix_of(self.output_ring(k)) by {
                    assert(before.overlap(k).len() == before.fft_len());
                    assert(before.output_ring(k).len() == fed.output_ring(k).len() + done * hop);
                    assert(fed.output_ring(k).is_prefix_of(before.output_ring(k)));
                    let hop_out = emitted(
                        *mul,
                        *add,
                        before.overlap(k),
                        self.output_frame(k),
                        before.window_table(),
                        before.hop(),
                    );
                    assert(self.output_ring(k) == before.output_ring(k) + hop_out);
                    assert(hop_out.len() == hop);
                }
                assert forall|k: int| 0 <= k < self.output_count() implies (#[trigger] self.overlap(
                    k,
                )).skip(self.fft_len() - self.hop()) == silence(self.hop(), self.silent()) by {
                    assert(before.overlap(k).len() == before.fft_len());
                    let kept = carried_over(
                        *mul,
                        *add,
                        before.overlap(k),
                        self.output_frame(k),
                        before.window_table(),
                        before.hop(),
                        before.silent(),
                    );
                    assert(self.overlap(k) == kept);
                    assert(kept.skip(self.fft_len() - self.hop()) =~= silence(
                        self.hop(),
                        self.silent(),
                    ));
                }
                if done == 0 {
                    Self::lemma_stubs_ready_same(&fed, &before);
                }
                assert(before.stubs_ready());
                assert forall|k: int| 0 <= k < fed.input_count() implies #[trigger] self.input_staged(
                    k,
                ) == windowed(
                    *mul,
                    fed.input_ring(k).skip((((done + 1) - 1) * fed.hop()) as int),
                    fed.window_table(),
                ) by {
                    assert(before.input_ring(k) == fed.input_ring(k).skip((done * fed.hop()) as int));
                    assert(self.input_staged(k) == windowed(
                        *mul,
                        before.input_ring(k),
                        before.window_table(),
                    ));
                }
                done = done + 1;
            }
            remaining -= hop;
        }
        let ghost ran = *self;
        self.egress(blocks_out);
        proof {
            Self::lemma_same_shape_trans(old(self), &fed, &ran);
            Self::lemma_same_shape_trans(old(self), &ran, self);
            assert(done == frames);
            if frames > 0 {
                assert forall|k: int| 0 <= k < old(self).input_count() implies #[trigger] self.input_staged(
                    k,
                ) == windowed(
                    *mul,
                    (old(self).input_ring(k) + blocks_in@[k]@.take(old(self).block() as int)).skip(
                        ((frames - 1) * old(self).hop()) as int,
                    ),
                    old(self).window_table(),
                ) by {
                    assert(self.input_staged(k) == ran.input_staged(k));
                    let fresh = old(self).input_ring(k) + blocks_in@[k]@.take(
                        old(self).block() as int,
                    );
                    let h = old(self).hop();
                    assert(0 * h == 0) by (nonlinear_arith);
                    assert(fed.input_ring(k) == fresh.skip((0 * old(self).hop()) as int));
                    assert(fresh.skip(0) =~= fresh);
                }
                assert forall|k: int| 0 <= k < self.output_count() implies (#[trigger] self.overlap(
                    k,
                )).skip(self.fft_len() - self.hop()) == silence(self.hop(), self.silent()) by {
                    assert(self.overlap(k) == ran.overlap(k));
                }
            }
            Self::lemma_advanced_from(old(self), &fed, &ran, blocks_in@, frames);
            assert forall|k: int| 0 <= k < old(self).input_count() implies #[trigger] self.input_ring(
                k,
            ) == (old(self).input_ring(k) + blocks_in@[k]@.take(old(self).block() as int)).skip(
                (frames * old(self).hop()) as int,
            ) by {
                assert(self.input_ring(k) == ran.input_ring(k));
            }
            assert forall|k: int| 0 <= k < old(self).output_count() implies self.played(
                old(self),
                k,
                old(blocks_out)@[k]@,
                (#[trigger] blocks_out@[k])@,
                frames,
            ) by {
                assert(fed.output_ring(k) == old(self).output_ring(k));
                assert(ran.output_ring(k).len() == fed.output_ring(k).len() + done * hop);
                assert(fed.output_ring(k).is_prefix_of(ran.output_ring(k)));
                assert(self.drained(&ran, k, old(blocks_out)@[k]@, blocks_out@[k]@));
                let block = old(self).block() as int;
                if ran.output_ring(k).len() >= block {
                    let stream = blocks_out@[k]@.take(block) + self.output_ring(k);
                    assert(blocks_out@[k]@.take(block) =~= ran.output_ring(k).take(block));
                    assert(stream =~= ran.output_ring(k));
                    assert(blocks_out@[k]@.skip(block) =~= old(blocks_out)@[k]@.skip(block));
                }
            }
            if frames == 0 {
                assert forall|d: int| 0 <= d < old(self).node_count() implies #[trigger] self.node_buffers(
                    d,
                ) == old(self).node_buffers(d) by {
                    assert(ran.node_buffers(d) == fed.node_buffers(d));
                    assert(fed.node_buffers(d) == old(self).node_buffers(d));
                    assert(self.node_buffers(d) == ran.node_buffers(d));
                }
                assert forall|k: int| 0 <= k < old(self).output_count() implies #[trigger] self.overlap(
                    k,
                ) == old(self).overlap(k) by {
                    assert(ran.overlap(k) == fed.overlap(k));
                    assert(fed.overlap(k) == old(self).overlap(k));
                }
            }
        }
        Ok(())
    }

    /// Two graphs of one shape whose node buffers are the same are ready to
    /// stage a frame, or are not, together.
    proof fn lemma_stubs_ready_same(a: &Self, b: &Self)
        requires
            a.wf(),
            b.same_shape(a),
            b.same_node_buffers(a),
        ensures
            b.stubs_ready() == a.stubs_ready(),
    {
        assert forall|k: int| 0 <= k < a.input_count() implies b.holds_audio_frame(
            #[trigger] b.input_stub(k),
        ) == a.holds_audio_frame(a.input_stub(k)) by {
            assert(0 <= a.input_stub(k) < a.node_count());
            assert(b.input_stub(k) == a.input_stub(k));
            assert(b.node_buffers(a.input_stub(k)) == a.node_buffers(a.input_stub(k)));
        }
        if a.stubs_ready() {
            assert forall|k: int| 0 <= k < b.input_count() implies b.holds_audio_frame(
                #[trigger] b.input_stub(k),
            ) by {
                assert(a.holds_audio_frame(a.input_stub(k)));
            }
        }
        if b.stubs_ready() {
            assert forall|k: int| 0 <= k < a.input_count() implies a.holds_audio_frame(
                #[trigger] a.input_stub(k),
            ) by {
                assert(b.holds_audio_frame(b.input_stub(k)));
            }
        }
    }

    /// Inputs that have advanced by `hops` hops since they took in their
    /// blocks have advanced so since before they took them in.
    proof fn lemma_advanced_from(a: &Self, fed: &Self, b: &Self, blocks: Seq<Vec<T>>, hops: nat)
        requires
            fed.inputs_advanced(a, blocks, 0),
            fed.same_shape(a),
            fed.same_settings(a),
            forall|k: int|
                0 <= k < fed.input_count() ==> #[trigger] b.input_ring(k) == fed.input_ring(k).skip(
                    (hops * fed.hop()) as int,
                ),
        ensures
            b.inputs_advanced(a, blocks, hops),
    {
        let h = a.hop();
        assert(0 * h == 0) by (nonlinear_arith);
        assert forall|k: int| 0 <= k < a.input_count() implies #[trigger] b.input_ring(k) == (
        a.input_ring(k) + blocks[k]@.take(a.block() as int)).skip((hops * a.hop()) as int) by {
            let fresh = a.input_ring(k) + blocks[k]@.take(a.block() as int);
            assert(fed.input_ring(k) == fresh.skip((0 * a.hop()) as int));
            assert(fresh.skip(0) =~= fresh);
        }
    }

    /// The ports that the graph shows to the outside as inputs: one port of
    /// single samples per audio input, named by its index.
    pub fn input_spec(&self) -> (ports: Vec<SignalSpec>)
        ensures
            are_indexed_ports(ports@, self.input_count()),
    {
        indexed_ports(self.inputs.len())
    }

    /// The ports that the graph shows to the outside as outputs: one port of
    /// single samples per audio output, named by its index.
    pub fn output_spec(&self) -> (ports: Vec<SignalSpec>)
        ensures
            are_indexed_ports(ports@, self.output_count()),
    {
        indexed_ports(self.outputs.len())
    }

    /// One block of `size` silent samples per audio output.
    pub fn create_output_buffers(&self, size: usize) -> (blocks: Vec<Vec<T>>)
        ensures
            blocks@.len() == self.output_count(),
            forall|k: int|
                0 <= k < blocks@.len() ==> (#[trigger] blocks@[k])@ == silence(
                    size as nat,
                    self.silent(),
                ),
    {
        let count = self.outputs.len();
        let mut blocks: Vec<Vec<T>> = Vec::with_capacity(count);
        let mut k: usize = 0;
        while k < count
            invariant
                k <= count == self.outputs@.len(),
                blocks@.len() == k,
                forall|j: int|
                    0 <= j < k ==> (#[trigger] blocks@[j])@ == silence(size as nat, self.zero),
            decreases count - k,
        {
            blocks.push(repeat(self.zero, size));
            k += 1;
        }
        blocks
    }

    /// The edges of the graph after output `source_output` of node `source`
    /// has been connected to input `target_input` of node `target`: the new
    /// edge takes the place of whatever drove that input before.
    pub open spec fn connected(
        &self,
        source: usize,
        source_output: usize,
        target: usize,
        target_input: usize,
    ) -> Incoming {
        self.edges().update(
            target as int,
            self.edges()[target as int].update(
                target_input as int,
                Some(PortRef { node: source, port: source_output }),
            ),
        )
    }

    /// What `connect` returns.
    pub open spec fn connect_outcome(
        &self,
        source: usize,
        source_output: usize,
        target: usize,
        target_input: usize,
    ) -> Result<(), ConnectError> {
        if source >= self.node_count() || target >= self.node_count() {
            Err(ConnectError::NoSuchNode)
        } else if source_output >= self.node_outputs(source as int).len() {
            Err(ConnectError::NoSuchOutput)
        } else if target_input >= self.node_inputs(target as int).len() {
            Err(ConnectError::NoSuchInput)
        } else if self.node_outputs(source as int)[source_output as int].signal_type
            != self.node_inputs(target as int)[target_input as int].signal_type {
            Err(ConnectError::TypeMismatch)
        } else if !is_acyclic(self.connected(source, source_output, target, target_input)) {
            Err(ConnectError::Cycle)
        } else {
            Ok(())
        }
    }

    /// Connects output `source_output` of node `source` to input
    /// `target_input` of node `target`. An edge that led to that input before
    /// is replaced. Ports of different signal types are not connected, nor
    /// ports whose edge would close a cycle. A refused connection changes
    /// nothing.
    pub fn connect(
        &mut self,
        source: usize,
        source_output: usize,
        target: usize,
        target_input: usize,
    ) -> (r: Result<(), ConnectError>)
        requires
            old(self).wf(),
        ensures
            final(self).wf(),
            r == old(self).connect_outcome(source, source_output, target, target_input),
            r is Ok ==> final(self).edges() == old(self).connected(
                source,
                source_output,
                target,
                target_input,
            ),
            r is Err ==> final(self).edges() == old(self).edges() && final(self).order() == old(
                self,
            ).order(),
            final(self).node_count() == old(self).node_count(),
            final(self).keeps_nodes_of(old(self)),
            final(self).same_settings(old(self)),
            final(self).same_audio_inputs(old(self)),
            final(self).same_audio_outputs(old(self)),
            final(self).same_node_buffers(old(self)),
    {
        proof {
            Self::lemma_shape_kept_refl(old(self));
            Self::lemma_same_tables(self, old(self));
            Self::lemma_same_output_tables(self, old(self));
        }
        if source >= self.nodes.len() || target >= self.nodes.len() {
            return Err(ConnectError::NoSuchNode);
        }
        let source_type = match self.nodes[source].output_type(source_output) {
            Some(t) => t,
            None => {
                return Err(ConnectError::NoSuchOutput);
            },
        };
        let target_type = match self.nodes[target].input_type(target_input) {
            Some(t) => t,
            None => {
                return Err(ConnectError::NoSuchInput);
            },
        };
        if !source_type.connects_to(target_type) {
            return Err(ConnectError::TypeMismatch);
        }
        assert(old(self).edges()[target as int].len() == old(self).node_inputs(target as int).len());
        let route = Some(PortRef { node: source, port: source_output });
        let previous = self.incoming[target][target_input];
        self.incoming[target].set(target_input, route);
        let ghost wanted = old(self).connected(source, source_output, target, target_input);
        proof {
            assert(self.edges() =~~= wanted);
            assert forall|d: int, i: int|
                0 <= d < wanted.len() && 0 <= i < wanted[d].len() && (
                #[trigger] wanted[d][i]) is Some implies wanted[d][i].unwrap().node
                < wanted.len() by {
                if d != target || i != target_input {
                    assert(old(self).edges()[d][i] is Some);
                }
            }
            assert(edges_of(self.incoming@) == self.edges());
        }
        match topological_order(&self.incoming) {
            Some(order) => {
                self.visit_path = order;
                proof {
                    Self::lemma_same_output_tables(self, old(self));
                    assert(self.keeps_nodes_of(old(self)));
                    assert forall|d: int|
                        0 <= d < self.node_count() implies (#[trigger] self.edges()[d]).len()
                        == self.node_inputs(d).len() by {
                        assert(old(self).edges()[d].len() == old(self).node_inputs(d).len());
                    }
                    assert forall|d: int, i: int|
                        0 <= d < self.node_count() && 0 <= i < self.edges()[d].len() && (
                        #[trigger] self.edges()[d][i]) is Some implies {
                        let from = self.edges()[d][i].unwrap();
                        &&& from.node < self.node_count()
                        &&& from.port < self.node_outputs(from.node as int).len()
                        &&& self.node_outputs(from.node as int)[from.port as int].signal_type
                            == self.node_inputs(d)[i].signal_type
                    } by {
                        if d != target || i != target_input {
                            assert(old(self).edges()[d][i] is Some);
                        }
                    }
                    assert forall|k: int| 0 <= k < self.input_count() implies 0
                        <= #[trigger] self.input_stub(k) < self.node_count() by {
                        assert(old(self).input_stub(k) < old(self).node_count());
                    }
                    assert forall|j: int, k: int|
                        0 <= j < k < self.input_count() implies #[trigger] self.input_stub(j)
                        < #[trigger] self.input_stub(k) by {
                        assert(old(self).input_stub(j) < old(self).input_stub(k));
                    }
                    assert forall|k: int| 0 <= k < self.output_count() implies 0
                        <= #[trigger] self.output_node(k) < self.node_count() by {
                        assert(old(self).output_node(k) < old(self).node_count());
                    }
                    assert forall|k: int| 0 <= k < self.output_count() implies (
                    #[trigger] self.overlap(k)).len() == self.fft_len() by {
                        assert(old(self).overlap(k).len() == old(self).fft_len());
                    }
                }
                Ok(())
            },
            None => {
                self.incoming[target].set(target_input, previous);
                proof {
                    assert(self.edges() =~~= old(self).edges());
                    Self::lemma_wf_carries(old(self), self);
                    Self::lemma_same_tables(self, old(self));
                    Self::lemma_same_output_tables(self, old(self));
                }
                Err(ConnectError::Cycle)
            },
        }
    }

    /// How long the ring buffer of audio input `k` is after a call of
    /// `process` that ran `hops` frames, none more than were due: as long as
    /// before, plus one block, less one hop per frame.
    pub proof fn lemma_ring_length_after(
        before: &Self,
        after: &Self,
        blocks: Seq<Vec<T>>,
        hops: nat,
        k: int,
    )
        requires
            before.wf(),
            0 <= k < before.input_count() <= blocks.len(),
            blocks[k]@.len() >= before.block(),
            hops <= before.frames_due(),
            after.inputs_advanced(before, blocks, hops),
        ensures
            hops * before.hop() <= before.input_ring(k).len() + before.block(),
            after.input_ring(k).len() == before.input_ring(k).len() + before.block() - hops
                * before.hop(),
    {
        let shortest = before.shortest_input();
        let total = shortest + before.block();
        let h = before.hop();
        let due = before.frames_due();
        lemma_frames_ready_rest(total, before.fft_len(), h);
        Self::lemma_shortest_is_least(before, before.input_count(), k);
        assert(hops * h <= due * h) by (nonlinear_arith)
            requires
                hops <= due,
        ;
        let fresh = before.input_ring(k) + blocks[k]@.take(before.block() as int);
        assert(after.input_ring(k) == fresh.skip((hops * h) as int));
    }

    /// Lockstep: a call of `process` takes the same number of samples in at
    /// every audio input and drops the same number of hops from every one. So
    /// two inputs whose ring buffers were equally long modulo the hop length
    /// before the call are so after it, whether it succeeded or failed.
    pub proof fn lemma_lockstep(
        before: &Self,
        after: &Self,
        blocks: Seq<Vec<T>>,
        hops: nat,
        j: int,
        k: int,
    )
        requires
            before.wf(),
            0 <= j < before.input_count(),
            0 <= k < before.input_count() <= blocks.len(),
            blocks[j]@.len() >= before.block(),
            blocks[k]@.len() >= before.block(),
            hops <= before.frames_due(),
            after.inputs_advanced(before, blocks, hops),
            before.input_ring(j).len() % before.hop() == before.input_ring(k).len() % before.hop(),
        ensures
            after.input_ring(j).len() - after.input_ring(k).len() == before.input_ring(j).len()
                - before.input_ring(k).len(),
            after.input_ring(j).len() % before.hop() == after.input_ring(k).len() % before.hop(),
    {
        Self::lemma_ring_length_after(before, after, blocks, hops, j);
        Self::lemma_ring_length_after(before, after, blocks, hops, k);
        let h = before.hop() as int;
        vstd::arithmetic::div_mod::lemma_mod_equivalence(
            before.input_ring(j).len() as int,
            before.input_ring(k).len() as int,
            h,
        );
        vstd::arithmetic::div_mod::lemma_mod_equivalence(
            after.input_ring(j).len() as int,
            after.input_ring(k).len() as int,
            h,
        );
    }

    /// Bounded input: after a successful call of `process`, the ring buffer
    /// of an audio input that was at most one block longer than the shortest
    /// one before the call holds fewer samples than one frame and one block.
    /// Inputs that start out equally long stay so, and each then holds fewer
    /// samples than one frame after every call.
    pub proof fn lemma_input_ring_bounded(before: &Self, after: &Self, blocks: Seq<Vec<T>>, k: int)
        requires
            before.wf(),
            0 <= k < before.input_count() <= blocks.len(),
            blocks[k]@.len() >= before.block(),
            after.inputs_advanced(before, blocks, before.frames_due()),
            before.input_ring(k).len() <= before.shortest_input() + before.block(),
        ensures
            after.input_ring(k).len() < before.fft_len() + before.block(),
            before.input_ring(k).len() == before.shortest_input() && before.fft_len()
                <= before.shortest_input() + before.block() ==> after.input_ring(k).len()
                < before.fft_len(),
    {
        Self::lemma_ring_length_after(before, after, blocks, before.frames_due(), k);
        lemma_frames_ready_rest(
            before.shortest_input() + before.block(),
            before.fft_len(),
            before.hop(),
        );
    }

    /// Overlap-buffer length: in a well-formed graph the overlap buffer of
    /// every audio output is exactly one frame long. Every function that
    /// changes a graph takes a well-formed graph and leaves one.
    pub proof fn lemma_overlap_length(&self, k: int)
        requires
            self.wf(),
            0 <= k < self.output_count(),
        ensures
            self.overlap(k).len() == self.fft_len(),
    {
    }

    /// Signal-type safety: in a well-formed graph every edge leads from an
    /// output port to an input port of the same signal type.
    pub proof fn lemma_edges_carry_one_type(&self, target: int, target_input: int)
        requires
            self.wf(),
            0 <= target < self.node_count(),
            0 <= target_input < self.node_inputs(target).len(),
            self.edges()[target][target_input] is Some,
        ensures
            ({
                let source = self.edges()[target][target_input].unwrap();
                &&& source.node < self.node_count()
                &&& source.port < self.node_outputs(source.node as int).len()
                &&& self.node_outputs(source.node as int)[source.port as int].signal_type
                    == self.node_inputs(target)[target_input].signal_type
            }),
    {
        assert(self.edges()[target].len() == self.node_inputs(target).len());
    }

    /// Signal-type safety: `connect` refuses to connect two ports of
    /// different signal types.
    pub proof fn lemma_connect_refuses_mismatch(
        &self,
        source: usize,
        source_output: usize,
        target: usize,
        target_input: usize,
    )
        requires
            source < self.node_count(),
            target < self.node_count(),
            source_output < self.node_outputs(source as int).len(),
            target_input < self.node_inputs(target as int).len(),
            self.node_outputs(source as int)[source_output as int].signal_type
                != self.node_inputs(target as int)[target_input as int].signal_type,
        ensures
            self.connect_outcome(source, source_output, target, target_input) == Err::<
                (),
                ConnectError,
            >(ConnectError::TypeMismatch),
    {
    }

    /// The analysis and synthesis window.
    pub fn window(&self) -> (w: &Vec<T>)
        ensures
            w@ == self.window_table(),
    {
        &self.window
    }

    /// The order in which the nodes are processed.
    pub fn visit_path(&self) -> (path: &Vec<usize>)
        ensures
            path@ == self.order(),
    {
        &self.visit_path
    }

    /// The output port that drives input `target_input` of node `target`, if
    /// there is such an input and it is driven.
    pub fn source_of(&self, target: usize, target_input: usize) -> (r: Option<PortRef>)
        ensures
            r == if target < self.edges().len() && target_input < self.edges()[target as int].len() {
                self.edges()[target as int][target_input as int]
            } else {
                None
            },
    {
        if target < self.incoming.len() && target_input < self.incoming[target].len() {
            self.incoming[target][target_input]
        } else {
            None
        }
    }

    /// The node of index `d`, if there is one.
    pub fn node(&self, d: usize) -> (r: Option<&FftProcessorNode<T, P>>)
        ensures
            r is Some <==> d < self.node_count(),
            r matches Some(node) ==> {
                &&& node.label() == self.node_label(d as int)
                &&& node.input_ports() == self.node_inputs(d as int)
                &&& node.output_ports() == self.node_outputs(d as int)
            },
    {
        if d < self.nodes.len() {
            Some(&self.nodes[d])
        } else {
            None
        }
    }

    /// The output buffers of node `d`, if there is such a node.
    pub fn buffers_of(&self, d: usize) -> (r: Option<&Vec<Frame<T>>>)
        ensures
            r is Some <==> d < self.node_count() && d < self.buffer_count(),
            r matches Some(buffers) ==> buffers@ == self.node_buffers(d as int),
    {
        if d < self.nodes.len() && d < self.buffers.len() {
            Some(&self.buffers[d])
        } else {
            None
        }
    }

    /// The number of nodes that have output buffers; in a well-formed graph,
    /// all of them.
    pub closed spec fn buffer_count(&self) -> nat {
        self.buffers@.len()
    }

    /// The number of samples waiting at audio input `k`, if there is such an
    /// input.
    pub fn input_ring_len(&self, k: usize) -> (r: Option<usize>)
        ensures
            r == if k < self.input_count() {
                Some(self.input_ring(k as int).len() as usize)
            } else {
                None
            },
    {
        if k < self.inputs.len() {
            Some(self.inputs[k].len())
        } else {
            None
        }
    }

    /// The number of samples ready at audio output `k`, if there is such an
    /// output.
    pub fn output_ring_len(&self, k: usize) -> (r: Option<usize>)
        ensures
            r == if k < self.output_count() {
                Some(self.output_ring(k as int).len() as usize)
            } else {
                None
            },
    {
        if k < self.outputs.len() {
            Some(self.outputs[k].len())
        } else {
            None
        }
    }

    /// Whether audio output `k` handed out a block when `process` last came to
    /// hand blocks out, if there is such an output. An output that did not
    /// has underrun.
    pub fn handed_out(&self, k: usize) -> (r: Option<bool>)
        requires
            self.wf(),
        ensures
            r == if k < self.output_count() {
                Some(self.block_handed_out(k as int))
            } else {
                None
            },
    {
        if k < self.outputs.len() {
            Some(self.handed_out[k])
        } else {
            None
        }
    }

    /// The length of the overlap buffer of audio output `k`, if there is such
    /// an output.
    pub fn overlap_len(&self, k: usize) -> (r: Option<usize>)
        ensures
            r == if k < self.output_count() {
                Some(self.overlap(k as int).len() as usize)
            } else {
                None
            },
    {
        if k < self.outputs.len() {
            Some(self.outputs[k].overlap_len())
        } else {
            None
        }
    }

    /// The number of frames that the next call of `process` runs: none in a
    /// graph without audio inputs. There is no answer where the shortest ring
    /// buffer and one block together hold more samples than the machine can
    /// count.
    pub fn frames_to_run(&self) -> (frames: Option<usize>)
        requires
            self.wf(),
        ensures
            frames == if self.input_count() == 0 {
                Some(0usize)
            } else if self.shortest_input() + self.block() <= usize::MAX {
                Some(self.frames_due() as usize)
            } else {
                None
            },
            frames is Some && self.input_count() > 0 ==> frames.unwrap() == self.frames_due(),
    {
        let count = self.inputs.len();
        if count == 0 {
            return Some(0);
        }
        let mut shortest: usize = usize::MAX;
        let mut k: usize = 0;
        while k < count
            invariant
                k <= count == self.inputs@.len(),
                shortest == self.shortest_among(k as nat),
            decreases count - k,
        {
            let len = self.inputs[k].len();
            if len < shortest {
                shortest = len;
            }
            k += 1;
        }
        if shortest > usize::MAX - self.block_size {
            None
        } else {
            Some(count_frames(shortest + self.block_size, self.n_fft, self.hop_length))
        }
    }
}

impl<T: Copy> FftGraph<T> {
    /// Makes a node of `processor`, lets it allocate for the current sample
    /// rate, and adds it to the graph. Returns the node's index.
    pub fn add_processor<Q: FftProcessor<T> + 'static>(&mut self, processor: Q) -> (id: usize)
        requires
            old(self).wf(),
        ensures
            final(self).wf(),
            id == old(self).node_count(),
            final(self).node_count() == old(self).node_count() + 1,
            exists|name: &str|
                call_ensures(Q::name, (&processor,), name) && final(self).node_label(id as int)
                    == name@,
            exists|ports: Vec<SignalSpec>|
                call_ensures(Q::input_spec, (&processor,), ports) && final(self).node_inputs(
                    id as int,
                ) == ports@,
            exists|ports: Vec<SignalSpec>|
                call_ensures(Q::output_spec, (&processor,), ports) && final(self).node_outputs(
                    id as int,
                ) == ports@,
            final(self).edges()[id as int] == Seq::new(
                final(self).node_inputs(id as int).len(),
                |i: int| None::<PortRef>,
            ),
            final(self).order() == old(self).order().push(id),
            final(self).keeps_nodes_of(old(self)),
            final(self).keeps_edges_of(old(self)),
            final(self).same_settings(old(self)),
            final(self).same_audio_inputs(old(self)),
            final(self).same_audio_outputs(old(self)),
            exists|allocated: Q, buffers: Vec<Frame<T>>|
                call_ensures(Q::create_output_buffers, (&allocated, 1usize), buffers) && final(self).node_buffers(
                    id as int,
                ) == buffers@,
            forall|d: int|
                0 <= d < old(self).node_count() ==> #[trigger] final(self).node_buffers(d) == old(
                    self,
                ).node_buffers(d),
    {
        let mut node = FftProcessorNode::new(processor);
        node.allocate(self.sample_rate);
        let ghost allocated = *node.held();
        node.resize_buffers(self.sample_rate);
        proof {
            assert(node.holds_buffers_of(&allocated, 1));
        }
        self.add_node(node.into_dyn())
    }
}

impl<T: Copy + Send + 'static> FftGraph<T> {
    /// Adds an audio output: an inverse transform node around `plan`, with a
    /// ring buffer and an overlap buffer behind it. Returns the index of the
    /// node; what is connected to its input 0 is what the output plays.
    pub fn add_audio_output(&mut self, plan: impl ComplexToReal<T> + 'static) -> (id: usize)
        requires
            old(self).wf(),
        ensures
            final(self).wf(),
            id == old(self).node_count(),
            final(self).node_count() == old(self).node_count() + 1,
            final(self).node_inputs(id as int).len() == 1,
            final(self).node_inputs(id as int)[0].signal_type == SignalType::RealSpectrum,
            final(self).node_outputs(id as int).len() == 1,
            final(self).node_outputs(id as int)[0].signal_type == SignalType::AudioBlock,
            final(self).edges()[id as int] == seq![None::<PortRef>],
            final(self).order() == old(self).order().push(id),
            final(self).keeps_nodes_of(old(self)),
            final(self).keeps_edges_of(old(self)),
            final(self).same_settings(old(self)),
            final(self).same_audio_inputs(old(self)),
            final(self).output_count() == old(self).output_count() + 1,
            final(self).output_node(old(self).output_count() as int) == id,
            final(self).holds_audio_frame(id as int),
            final(self).same_node_buffers(old(self)),
            final(self).output_ring(old(self).output_count() as int) == Seq::<T>::empty(),
            final(self).overlap(old(self).output_count() as int) == silence(
                old(self).fft_len(),
                old(self).silent(),
            ),
            final(self).keeps_audio_outputs_of(old(self)),
    {
        let mut bridge = InverseRealFft::with_length(self.n_fft, plan, self.zero);
        bridge.allocate(self.sample_rate);
        bridge.resize_buffers(self.sample_rate);
        let name = bridge.name().to_owned();
        let input_spec = bridge.input_spec();
        let output_spec = bridge.output_spec();
        let buffers = bridge.create_output_buffers(1);
        let boxed: Box<dyn FftProcessor<T>> = Box::new(bridge);
        let node = FftProcessorNode::from_parts(boxed, name, input_spec, output_spec, buffers);
        let id = self.add_node(node);
        let ghost mid = *self;
        self.output_nodes.push(id);
        self.outputs.push(FftOutput::new(self.n_fft, self.zero));
        self.handed_out.push(false);
        proof {
            assert(self.edges() == mid.edges());
            assert(self.edges()[id as int] =~= seq![None::<PortRef>]);
            assert(self.node_buffers(id as int) == mid.node_buffers(id as int));
            assert(self.node_buffers(id as int)[0].audio() is Some);
            assert forall|d: int| 0 <= d < old(self).node_count() implies #[trigger] self.node_buffers(
                d,
            ) == old(self).node_buffers(d) by {
                assert(mid.node_buffers(d) == old(self).node_buffers(d));
                assert(self.node_buffers(d) == mid.node_buffers(d));
            }
            Self::lemma_same_tables(self, &mid);
            Self::lemma_keeps_nodes_trans(old(self), &mid, self);
            Self::lemma_keeps_inputs_trans(old(self), &mid, self);
            assert forall|k: int| 0 <= k < self.input_count() implies 0 <= #[trigger] self.input_stub(
                k,
            ) < self.node_count() by {
                assert(mid.input_stub(k) < mid.node_count());
            }
            assert forall|j: int, k: int| 0 <= j < k < self.input_count() implies #[trigger] self.input_stub(j)
                < #[trigger] self.input_stub(k) by {
                assert(mid.input_stub(j) < mid.input_stub(k));
            }
            assert forall|k: int| 0 <= k < self.output_count() implies 0
                <= #[trigger] self.output_node(k) < self.node_count() by {
                if k < mid.output_count() {
                    assert(mid.output_node(k) < mid.node_count());
                }
            }
            assert forall|k: int| 0 <= k < self.output_count() implies (#[trigger] self.overlap(
                k,
            )).len() == self.fft_len() by {
                if k < mid.output_count() {
                    assert(mid.overlap(k).len() == mid.fft_len());
                }
            }
            assert forall|k: int| 0 <= k < old(self).output_count() implies #[trigger] self.output_node(
                k,
            ) == old(self).output_node(k) by {
                assert(mid.output_node(k) == old(self).output_node(k));
            }
            assert forall|k: int| 0 <= k < old(self).output_count() implies #[trigger] self.output_ring(
                k,
            ) == old(self).output_ring(k) by {
                assert(mid.output_ring(k) == old(self).output_ring(k));
            }
            assert forall|k: int| 0 <= k < old(self).output_count() implies #[trigger] self.overlap(
                k,
            ) == old(self).overlap(k) by {
                assert(mid.overlap(k) == old(self).overlap(k));
            }
        }
        id
    }

    /// Adds an audio input: a stub node, a forward transform node around
    /// `plan` that the stub drives, and a ring buffer in front of them.
    /// Returns the index of the transform node, whose output 0 carries the
    /// spectrum of each frame of the input.
    pub fn add_audio_input(&mut self, plan: impl RealToComplex<T> + 'static) -> (id: usize)
        requires
            old(self).wf(),
        ensures
            final(self).wf(),
            id == old(self).node_count() + 1,
            final(self).node_count() == old(self).node_count() + 2,
            final(self).node_inputs(id as int - 1).len() == 0,
            final(self).node_outputs(id as int - 1).len() == 1,
            final(self).node_outputs(id as int - 1)[0].signal_type == SignalType::AudioBlock,
            final(self).node_inputs(id as int).len() == 1,
            final(self).node_inputs(id as int)[0].signal_type == SignalType::AudioBlock,
            final(self).node_outputs(id as int).len() == 1,
            final(self).node_outputs(id as int)[0].signal_type == SignalType::RealSpectrum,
            final(self).edges()[id as int - 1] == Seq::<Option<PortRef>>::empty(),
            final(self).edges()[id as int] == seq![Some(PortRef { node: (id - 1) as usize, port: 0 })],
            final(self).order() == old(self).order().push((id - 1) as usize).push(id),
            final(self).keeps_nodes_of(old(self)),
            final(self).keeps_edges_of(old(self)),
            final(self).same_settings(old(self)),
            final(self).same_audio_outputs(old(self)),
            final(self).keeps_audio_inputs_of(old(self)),
            final(self).input_count() == old(self).input_count() + 1,
            final(self).input_stub(old(self).input_count() as int) == id - 1,
            final(self).holds_audio_frame(id as int - 1),
            final(self).same_node_buffers(old(self)),
            final(self).input_ring(old(self).input_count() as int) == Seq::<T>::empty(),
    {
        let mut stub = Null::with_length(self.n_fft, self.zero);
        stub.allocate(self.sample_rate);
        stub.resize_buffers(self.sample_rate);
        let stub_name = stub.name().to_owned();
        let stub_inputs = stub.input_spec();
        let stub_outputs = stub.output_spec();
        let stub_buffers = stub.create_output_buffers(1);
        let stub_boxed: Box<dyn FftProcessor<T>> = Box::new(stub);
        let stub_id = self.add_node(
            FftProcessorNode::from_parts(
                stub_boxed,
                stub_name,
                stub_inputs,
                stub_outputs,
                stub_buffers,
            ),
        );
        let ghost first = *self;

        let mut bridge = RealFft::with_length(self.n_fft, plan, self.zero);
        bridge.allocate(self.sample_rate);
        bridge.resize_buffers(self.sample_rate);
        let name = bridge.name().to_owned();
        let input_spec = bridge.input_spec();
        let output_spec = bridge.output_spec();
        let buffers = bridge.create_output_buffers(1);
        let boxed: Box<dyn FftProcessor<T>> = Box::new(bridge);
        let id = self.add_node(
            FftProcessorNode::from_parts(boxed, name, input_spec, output_spec, buffers),
        );
        let ghost second = *self;
        proof {
            Self::lemma_keeps_nodes_trans(old(self), &first, &second);
            Self::lemma_keeps_edges_trans(old(self), &first, &second);
            Self::lemma_keeps_inputs_trans(old(self), &first, &second);
            Self::lemma_keeps_outputs_trans(old(self), &first, &second);
            assert(second.edges()[stub_id as int] == first.edges()[stub_id as int]);
            assert(second.node_inputs(stub_id as int) == first.node_inputs(stub_id as int));
            assert(second.node_outputs(stub_id as int) == first.node_outputs(stub_id as int));
        }

        self.incoming[id].set(0, Some(PortRef { node: stub_id, port: 0 }));
        self.input_nodes.push(stub_id);
        self.inputs.push(FftInput::new(self.n_fft, self.zero));
        proof {
            assert(first.node_buffers(stub_id as int)[0].audio() is Some);
            assert(second.node_buffers(stub_id as int) == first.node_buffers(stub_id as int));
            assert(self.node_buffers(stub_id as int) == second.node_buffers(stub_id as int));
            assert forall|d: int| 0 <= d < old(self).node_count() implies #[trigger] self.node_buffers(
                d,
            ) == old(self).node_buffers(d) by {
                assert(first.node_buffers(d) == old(self).node_buffers(d));
                assert(second.node_buffers(d) == first.node_buffers(d));
                assert(self.node_buffers(d) == second.node_buffers(d));
            }
            let before = second.edges();
            let after = self.edges();
            let route = Some(PortRef { node: stub_id, port: 0 });
            assert(before[id as int].len() == 1);
            assert(self.incoming@[id as int]@ =~= seq![route]);
            assert forall|d: int| 0 <= d < after.len() implies after[d] == before.update(
                id as int,
                seq![route],
            )[d] by {
                if d != id {
                    assert(self.incoming@[d] == second.incoming@[d]);
                }
            }
            assert(after =~= before.update(id as int, seq![route]));
            assert(after[stub_id as int] =~= Seq::<Option<PortRef>>::empty());
            Self::lemma_same_output_tables(self, &second);
            Self::lemma_keeps_outputs_trans(old(self), &second, self);
            assert(self.keeps_nodes_of(&second));
            Self::lemma_keeps_nodes_trans(old(self), &second, self);
            assert forall|d: int| 0 <= d < old(self).edges().len() implies #[trigger] after[d]
                == old(self).edges()[d] by {
                assert(before[d] == old(self).edges()[d]);
            }
            assert forall|k: int| 0 <= k < old(self).input_count() implies #[trigger] self.input_stub(
                k,
            ) == old(self).input_stub(k) by {
                assert(second.input_stub(k) == old(self).input_stub(k));
            }
            assert forall|k: int| 0 <= k < old(self).input_count() implies #[trigger] self.input_ring(
                k,
            ) == old(self).input_ring(k) by {
                assert(second.input_ring(k) == old(self).input_ring(k));
            }
            assert forall|k: int| 0 <= k < self.input_count() implies 0 <= #[trigger] self.input_stub(
                k,
            ) < self.node_count() by {
                if k < old(self).input_count() {
                    assert(old(self).input_stub(k) < old(self).node_count());
                }
            }
            assert forall|j: int, k: int| 0 <= j < k < self.input_count() implies #[trigger] self.input_stub(j)
                < #[trigger] self.input_stub(k) by {
                assert(old(self).input_stub(j) < old(self).node_count());
                if k < old(self).input_count() {
                    assert(old(self).input_stub(j) < old(self).input_stub(k));
                }
            }
            assert forall|k: int| 0 <= k < self.output_count() implies 0
                <= #[trigger] self.output_node(k) < self.node_count() by {
                assert(old(self).output_node(k) < old(self).node_count());
            }
            assert forall|k: int| 0 <= k < self.output_count() implies (#[trigger] self.overlap(
                k,
            )).len() == self.fft_len() by {
                assert(old(self).overlap(k).len() == old(self).fft_len());
            }
            // the edges carry matching types
            assert forall|d: int|
                0 <= d < self.node_count() implies (#[trigger] self.edges()[d]).len()
                == self.node_inputs(d).len() by {
                assert(second.edges()[d].len() == second.node_inputs(d).len());
            }
            assert forall|d: int, i: int|
                0 <= d < self.node_count() && 0 <= i < self.edges()[d].len() && (
                #[trigger] self.edges()[d][i]) is Some implies {
                let source = self.edges()[d][i].unwrap();
                &&& source.node < self.node_count()
                &&& source.port < self.node_outputs(source.node as int).len()
                &&& self.node_outputs(source.node as int)[source.port as int].signal_type
                    == self.node_inputs(d)[i].signal_type
            } by {
                if d != id {
                    assert(second.edges()[d][i] is Some);
                }
            }
            // the order stays topological
            let order = self.order();
            assert(order == second.order());
            assert forall|d: int| 0 <= d < after.len() implies #[trigger] appears_before(
                order,
                d,
                order.len() as int,
            ) by {
                assert(appears_before(second.order(), d, second.order().len() as int));
            }
            assert forall|k: int, i: int|
                0 <= k < order.len() && 0 <= i < after[order[k] as int].len() && (
                #[trigger] after[order[k] as int][i]) is Some implies appears_before(
                order,
                after[order[k] as int][i].unwrap().node as int,
                k,
            ) by {
                if order[k] == id {
                    // the transform node stands last, right behind its stub
                    if k < order.len() - 2 {
                        assert(old(self).order()[k] < old(self).node_count());
                    }
                    assert(order[order.len() - 2] == stub_id);
                    assert(appears_before(order, stub_id as int, k));
                } else {
                    assert(before[order[k] as int][i] is Some);
                    assert(appears_before(
                        second.order(),
                        before[order[k] as int][i].unwrap().node as int,
                        k,
                    ));
                }
            }
        }
        id
    }
}

} // verus!
