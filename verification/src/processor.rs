use crate::frame::{Complex, Frame};
use crate::signal::SignalSpec;
use vstd::prelude::*;

verus! {

/// Why a processor, or a graph of them, failed.
#[derive(Debug)]
pub enum ProcessorError {
    /// The processor's transform rejected its input; the text says why.
    ProcessingError(String),
    /// A node inside a sub-graph failed.
    SubGraphError(Box<ProcessNodeError>),
    /// The output buffer at this port of a node is missing, is one too many,
    /// or is not a frame of the type and length that the graph reads or
    /// writes there.
    OutputSpecMismatch(usize),
}

/// The failure of one node, with the node's name.
#[derive(Debug)]
pub struct ProcessNodeError {
    pub node_name: String,
    pub error: ProcessorError,
}

/// What a graph returns for the outcome of one of its nodes: the failure of
/// a node is the failure of the sub-graph, and carries the node's failure.
pub fn sub_graph_outcome(outcome: Result<(), ProcessNodeError>) -> (r: Result<(), ProcessorError>)
    ensures
        outcome is Ok <==> r is Ok,
        outcome matches Err(failure) ==> r == Err::<(), ProcessorError>(
            ProcessorError::SubGraphError(Box::new(failure)),
        ),
{
    match outcome {
        Ok(_) => Ok(()),
        Err(failure) => Err(ProcessorError::SubGraphError(Box::new(failure))),
    }
}

/// How much signal one call of a processor covers.
#[derive(Clone, Copy, Debug, PartialEq, Eq, Structural)]
pub enum ProcessMode {
    Sample,
    Block,
}

/// The surroundings of one call of a processor.
#[derive(Debug)]
pub struct ProcEnv<T> {
    pub sample_rate: T,
    pub block_size: usize,
    pub mode: ProcessMode,
}

impl<T: Copy> Clone for ProcEnv<T> {
    fn clone(&self) -> (r: Self)
        ensures
            r == *self,
    {
        *self
    }
}

impl<T: Copy> Copy for ProcEnv<T> {

}

/// One output port of one node.
#[derive(Clone, Copy, Debug, PartialEq, Eq, Structural)]
pub struct PortRef {
    pub node: usize,
    pub port: usize,
}

/// The frame that `route` leads to in `buffers`, if there is one.
pub open spec fn routed_frame<T>(buffers: Seq<Vec<Frame<T>>>, route: Option<PortRef>) -> Option<
    Frame<T>,
> {
    match route {
        Some(source) => if source.node < buffers.len() && source.port < buffers[source.node as int]@.len() {
            Some(buffers[source.node as int]@[source.port as int])
        } else {
            None
        },
        None => None,
    }
}

/// What a processor may read during one call: for each of its input ports the
/// frame that the connected upstream port holds, or nothing where the port is
/// not driven.
pub struct ProcessorInputs<'a, T> {
    pub(crate) routes: &'a Vec<Option<PortRef>>,
    pub(crate) buffers: &'a Vec<Vec<Frame<T>>>,
    pub(crate) env: ProcEnv<T>,
}

impl<'a, T: Copy> ProcessorInputs<'a, T> {
    /// The number of input ports.
    pub closed spec fn count(&self) -> nat {
        self.routes@.len()
    }

    /// The frame at input port `index`, if the port is driven.
    pub closed spec fn frame(&self, index: int) -> Option<Frame<T>> {
        if 0 <= index < self.routes@.len() {
            routed_frame(self.buffers@, self.routes@[index])
        } else {
            None
        }
    }

    /// The inputs that lead, port by port along `routes`, into the output
    /// buffers `buffers` of the nodes of a graph.
    pub fn new(
        routes: &'a Vec<Option<PortRef>>,
        buffers: &'a Vec<Vec<Frame<T>>>,
        env: ProcEnv<T>,
    ) -> (inputs: Self)
        ensures
            inputs.count() == routes@.len(),
            inputs.env() == env,
            forall|i: int|
                0 <= i < routes@.len() ==> inputs.frame(i) == routed_frame(buffers@, routes@[i]),
            forall|i: int| !(0 <= i < routes@.len()) ==> inputs.frame(i) is None,
    {
        ProcessorInputs { routes, buffers, env }
    }

    pub closed spec fn env(&self) -> ProcEnv<T> {
        self.env
    }

    pub fn num_inputs(&self) -> (n: usize)
        ensures
            n == self.count(),
    {
        self.routes.len()
    }

    pub fn proc_env(&self) -> (env: ProcEnv<T>)
        ensures
            env == self.env(),
    {
        self.env
    }

    /// The frame at input port `index`; nothing where the port does not exist
    /// or is not driven.
    pub fn input(&self, index: usize) -> (r: Option<&'a Frame<T>>)
        ensures
            r is Some <==> self.frame(index as int) is Some,
            r matches Some(f) ==> Some(*f) == self.frame(index as int),
    {
        if index >= self.routes.len() {
            return None;
        }
        match self.routes[index] {
            Some(source) => {
                if source.node < self.buffers.len() {
                    let outputs = &self.buffers[source.node];
                    if source.port < outputs.len() {
                        Some(&outputs[source.port])
                    } else {
                        None
                    }
                } else {
                    None
                }
            },
            None => None,
        }
    }

    /// The samples at input port `index`, if the port is driven by an audio
    /// frame; a frame of another type counts as no input.
    pub fn input_audio(&self, index: usize) -> (r: Option<&'a Vec<T>>)
        ensures
            r is Some <==> (self.frame(index as int) matches Some(f) && f.audio() is Some),
            r matches Some(v) ==> self.frame(index as int).unwrap().audio() == Some(v@),
    {
        match self.input(index) {
            Some(frame) => match frame {
                Frame::Audio(v) => Some(v),
                _ => None,
            },
            None => None,
        }
    }

    /// The bins at input port `index`, if the port is driven by a
    /// real-transform frame; a frame of another type counts as no input.
    pub fn input_real_spectrum(&self, index: usize) -> (r: Option<&'a Vec<Complex<T>>>)
        ensures
            r is Some <==> (self.frame(index as int) matches Some(f) && f.real_bins() is Some),
            r matches Some(v) ==> self.frame(index as int).unwrap().real_bins() == Some(v@),
    {
        match self.input(index) {
            Some(frame) => match frame {
                Frame::RealSpectrum(v) => Some(v),
                _ => None,
            },
            None => None,
        }
    }
}

/// What a spectral node must offer. The graph calls `process` once per frame.
pub trait FftProcessor<T: Copy>: Send {
    /// A name for diagnostics.
    fn name(&self) -> &str;

    /// The input ports.
    fn input_spec(&self) -> Vec<SignalSpec>;

    /// The output ports.
    fn output_spec(&self) -> Vec<SignalSpec>;

    /// One buffer per output port, each a frame of the port's type.
    fn create_output_buffers(&self, size: usize) -> Vec<Frame<T>>;

    /// Called once before processing starts.
    fn allocate(&mut self, sample_rate: T) {
    }

    /// Called when the sample rate changes.
    fn resize_buffers(&mut self, sample_rate: T) {
    }

    /// Reads one frame per driven input and writes one frame per output.
    fn process(&mut self, inputs: &ProcessorInputs<'_, T>, outputs: &mut Vec<Frame<T>>) -> Result<
        (),
        ProcessorError,
    >;
}

} // verus!
