use crate::arith::{apply, is_operation, op, overlap_added, silence, windowed};
use crate::frame::Frame;
use crate::processor::{FftProcessor, ProcessNodeError, ProcessorError, ProcessorInputs};
use crate::signal::{SignalSpec, SignalType};
use std::collections::VecDeque;
use vstd::prelude::*;

verus! {

/// `VecDeque::try_reserve`: room is made for `additional` more items where
/// that can be done; the items stay as they are either way.
#[verifier::external_body]
fn try_reserve<T>(ring: &mut VecDeque<T>, additional: usize)
    ensures
        final(ring)@ == old(ring)@,
{
    let _ = ring.try_reserve(additional);
}

/// What the engine keeps for one audio input: the samples that have come in
/// and not yet left with a hop, and the frame that was staged last.
pub struct FftInput<T> {
    pub(crate) ring_buffer: VecDeque<T>,
    pub(crate) time_domain: Vec<T>,
}

impl<T: Copy> FftInput<T> {
    /// The samples waiting in the ring buffer, oldest first.
    pub closed spec fn ring(&self) -> Seq<T> {
        self.ring_buffer@
    }

    /// The staging frame.
    pub closed spec fn staged(&self) -> Seq<T> {
        self.time_domain@
    }

    /// An input with an empty ring buffer and a staging frame of `n_fft`
    /// samples equal to `zero`.
    pub fn new(n_fft: usize, zero: T) -> (input: Self)
        ensures
            input.ring() == Seq::<T>::empty(),
            input.staged() == silence(n_fft as nat, zero),
    {
        FftInput {
            ring_buffer: VecDeque::with_capacity(n_fft),
            time_domain: crate::frame::repeat(zero, n_fft),
        }
    }

    /// The number of samples waiting.
    pub fn len(&self) -> (n: usize)
        ensures
            n == self.ring().len(),
    {
        self.ring_buffer.len()
    }

    /// The number of samples waiting fits the machine's word.
    pub proof fn lemma_ring_fits(&self)
        ensures
            self.ring().len() <= usize::MAX,
    {
        vstd::std_specs::vecdeque::axiom_spec_len(&self.ring_buffer);
    }

    /// The staging frame.
    pub fn time_domain(&self) -> (frame: &Vec<T>)
        ensures
            frame@ == self.staged(),
    {
        &self.time_domain
    }

    /// Makes room in the ring buffer for `additional` more samples, where
    /// that can be done. The samples stay as they are.
    pub fn reserve(&mut self, additional: usize)
        ensures
            final(self).ring() == old(self).ring(),
            final(self).staged() == old(self).staged(),
    {
        try_reserve(&mut self.ring_buffer, additional);
    }

    /// Appends the first `count` samples of `samples` to the ring buffer.
    pub fn ingest(&mut self, samples: &Vec<T>, count: usize)
        requires
            count <= samples@.len(),
        ensures
            final(self).ring() == old(self).ring() + samples@.take(count as int),
            final(self).staged() == old(self).staged(),
    {
        let mut i: usize = 0;
        while i < count
            invariant
                i <= count <= samples@.len(),
                self.ring_buffer@ == old(self).ring_buffer@ + samples@.take(i as int),
                self.time_domain@ == old(self).time_domain@,
            decreases count - i,
        {
            self.ring_buffer.push_back(samples[i]);
            i += 1;
            assert(self.ring_buffer@ =~= old(self).ring_buffer@ + samples@.take(i as int));
        }
    }

    /// Writes the first frame of the ring buffer, multiplied by the window,
    /// into the staging frame. The ring buffer keeps its samples.
    pub fn stage_frame<M: Fn(T, T) -> T>(&mut self, window: &Vec<T>, mul: &M)
        requires
            is_operation(*mul),
            window@.len() == old(self).staged().len(),
            window@.len() <= old(self).ring().len(),
        ensures
            final(self).staged() == windowed(*mul, old(self).ring(), window@),
            final(self).ring() == old(self).ring(),
    {
        let n = window.len();
        let mut i: usize = 0;
        while i < n
            invariant
                is_operation(*mul),
                i <= n == window@.len(),
                n <= self.ring_buffer@.len(),
                self.ring_buffer@ == old(self).ring_buffer@,
                self.time_domain@.len() == n,
                forall|j: int|
                    0 <= j < i ==> self.time_domain@[j] == op(
                        *mul,
                        self.ring_buffer@[j],
                        window@[j],
                    ),
            decreases n - i,
        {
            let x = apply(mul, self.ring_buffer[i], window[i]);
            self.time_domain.set(i, x);
            i += 1;
        }
        assert(self.time_domain@ =~= windowed(*mul, old(self).ring(), window@));
    }

    /// Drops the first `hop` samples of the ring buffer.
    pub fn advance(&mut self, hop: usize)
        requires
            hop <= old(self).ring().len(),
        ensures
            final(self).ring() == old(self).ring().skip(hop as int),
            final(self).staged() == old(self).staged(),
    {
        let mut i: usize = 0;
        while i < hop
            invariant
                i <= hop <= old(self).ring_buffer@.len(),
                self.ring_buffer@ == old(self).ring_buffer@.skip(i as int),
                self.time_domain@ == old(self).time_domain@,
            decreases hop - i,
        {
            let _ = self.ring_buffer.pop_front();
            i += 1;
            assert(self.ring_buffer@ =~= old(self).ring_buffer@.skip(i as int));
        }
    }
}

/// What the engine keeps for one audio output: the samples that are ready to
/// leave, and the overlap buffer into which finished frames are summed.
pub struct FftOutput<T> {
    pub(crate) ring_buffer: VecDeque<T>,
    pub(crate) overlap_buffer: VecDeque<T>,
}

impl<T: Copy> FftOutput<T> {
    /// The samples ready to leave, oldest first.
    pub closed spec fn ring(&self) -> Seq<T> {
        self.ring_buffer@
    }

    /// The overlap buffer.
    pub closed spec fn overlap(&self) -> Seq<T> {
        self.overlap_buffer@
    }

    /// An output with nothing ready and an overlap buffer of `n_fft` samples
    /// equal to `zero`.
    pub fn new(n_fft: usize, zero: T) -> (output: Self)
        ensures
            output.ring() == Seq::<T>::empty(),
            output.overlap() == silence(n_fft as nat, zero),
    {
        let mut overlap_buffer: VecDeque<T> = VecDeque::with_capacity(n_fft);
        let mut i: usize = 0;
        while i < n_fft
            invariant
                i <= n_fft,
                overlap_buffer@ == silence(i as nat, zero),
            decreases n_fft - i,
        {
            overlap_buffer.push_back(zero);
            i += 1;
            assert(overlap_buffer@ =~= silence(i as nat, zero));
        }
        FftOutput { ring_buffer: VecDeque::with_capacity(n_fft), overlap_buffer }
    }

    /// The number of samples ready to leave.
    pub fn len(&self) -> (n: usize)
        ensures
            n == self.ring().len(),
    {
        self.ring_buffer.len()
    }

    /// The length of the overlap buffer.
    pub fn overlap_len(&self) -> (n: usize)
        ensures
            n == self.overlap().len(),
    {
        self.overlap_buffer.len()
    }

    /// Makes room in the ring buffer for `additional` more samples, where
    /// that can be done. The samples stay as they are.
    pub fn reserve(&mut self, additional: usize)
        ensures
            final(self).ring() == old(self).ring(),
            final(self).overlap() == old(self).overlap(),
    {
        try_reserve(&mut self.ring_buffer, additional);
    }

    /// Sums the frame `frame`, multiplied by the window, into the overlap
    /// buffer, sample by sample.
    pub fn overlap_add<M: Fn(T, T) -> T, A: Fn(T, T) -> T>(
        &mut self,
        frame: &Vec<T>,
        window: &Vec<T>,
        mul: &M,
        add: &A,
    )
        requires
            is_operation(*mul),
            is_operation(*add),
            frame@.len() == window@.len(),
            old(self).overlap().len() == window@.len(),
        ensures
            final(self).overlap() == overlap_added(
                *mul,
                *add,
                old(self).overlap(),
                frame@,
                window@,
            ),
            final(self).ring() == old(self).ring(),
    {
        let n = window.len();
        let mut i: usize = 0;
        while i < n
            invariant
                is_operation(*mul),
                is_operation(*add),
                i <= n == window@.len(),
                frame@.len() == n,
                old(self).overlap_buffer@.len() == n,
                self.ring_buffer@ == old(self).ring_buffer@,
                self.overlap_buffer@ == old(self).overlap_buffer@.skip(i as int)
                    + overlap_added(*mul, *add, old(self).overlap_buffer@, frame@, window@).take(
                    i as int,
                ),
            decreases n - i,
        {
            let held = self.overlap_buffer.pop_front();
            match held {
                Some(x) => {
                    let y = apply(mul, frame[i], window[i]);
                    let sum = apply(add, x, y);
                    self.overlap_buffer.push_back(sum);
                },
                None => {},
            }
            i += 1;
            assert(self.overlap_buffer@ =~= old(self).overlap_buffer@.skip(i as int)
                + overlap_added(*mul, *add, old(self).overlap_buffer@, frame@, window@).take(
                i as int,
            ));
        }
        assert(self.overlap_buffer@ =~= overlap_added(
            *mul,
            *add,
            old(self).overlap_buffer@,
            frame@,
            window@,
        ));
    }

    /// Moves the first `hop` samples of the overlap buffer to the end of the
    /// ring buffer, and fills the overlap buffer up with `hop` samples equal to
    /// `zero`, so that it keeps its length.
    pub fn emit_hop(&mut self, hop: usize, zero: T)
        requires
            hop <= old(self).overlap().len(),
        ensures
            final(self).ring() == old(self).ring() + old(self).overlap().take(hop as int),
            final(self).overlap() == old(self).overlap().skip(hop as int) + silence(
                hop as nat,
                zero,
            ),
            final(self).overlap().len() == old(self).overlap().len(),
    {
        let mut i: usize = 0;
        while i < hop
            invariant
                i <= hop <= old(self).overlap_buffer@.len(),
                self.ring_buffer@ == old(self).ring_buffer@ + old(self).overlap_buffer@.take(
                    i as int,
                ),
                self.overlap_buffer@ == old(self).overlap_buffer@.skip(i as int) + silence(
                    i as nat,
                    zero,
                ),
            decreases hop - i,
        {
            let held = self.overlap_buffer.pop_front();
            match held {
                Some(x) => {
                    self.ring_buffer.push_back(x);
                },
                None => {},
            }
            self.overlap_buffer.push_back(zero);
            i += 1;
            assert(self.ring_buffer@ =~= old(self).ring_buffer@ + old(self).overlap_buffer@.take(
                i as int,
            ));
            assert(self.overlap_buffer@ =~= old(self).overlap_buffer@.skip(i as int) + silence(
                i as nat,
                zero,
            ));
        }
    }

    /// Hands out one block of `count` samples, if that many are ready: they
    /// leave the ring buffer and take the first `count` places of `out`. If
    /// fewer are ready, nothing changes.
    pub fn drain_block(&mut self, count: usize, out: &mut Vec<T>) -> (written: bool)
        requires
            count <= old(out)@.len(),
        ensures
            written == (count <= old(self).ring().len()),
            final(self).overlap() == old(self).overlap(),
            !written ==> final(self).ring() == old(self).ring() && final(out)@ == old(out)@,
            written ==> final(self).ring() == old(self).ring().skip(count as int),
            written ==> final(out)@ == old(self).ring().take(count as int) + old(out)@.skip(
                count as int,
            ),
    {
        if self.ring_buffer.len() < count {
            return false;
        }
        let mut i: usize = 0;
        while i < count
            invariant
                i <= count <= old(self).ring_buffer@.len(),
                count <= old(out)@.len(),
                self.overlap_buffer@ == old(self).overlap_buffer@,
                self.ring_buffer@ == old(self).ring_buffer@.skip(i as int),
                out@ == old(self).ring_buffer@.take(i as int) + old(out)@.skip(i as int),
            decreases count - i,
        {
            let held = self.ring_buffer.pop_front();
            match held {
                Some(x) => {
                    out.set(i, x);
                },
                None => {},
            }
            i += 1;
            assert(self.ring_buffer@ =~= old(self).ring_buffer@.skip(i as int));
            assert(out@ =~= old(self).ring_buffer@.take(i as int) + old(out)@.skip(i as int));
        }
        true
    }
}

/// A spectral processor made into a node of a graph: the processor, its name
/// and port lists as they were when the node was made, and one output buffer
/// per output port.
///
/// A graph holds nodes around processors of any type, `FftProcessorNode<T>`.
/// A node around a processor of the known type `P` says more of itself.
#[verifier::reject_recursive_types(T)]
#[verifier::reject_recursive_types(P)]
pub struct FftProcessorNode<T: Copy, P: ?Sized + FftProcessor<T> = dyn FftProcessor<T>> {
    pub(crate) processor: Box<P>,
    pub(crate) name: String,
    pub(crate) input_spec: Vec<SignalSpec>,
    pub(crate) output_spec: Vec<SignalSpec>,
    pub(crate) outputs: Vec<Frame<T>>,
}

/// What a node returns for the outcome `outcome` of its processor: a failure
/// is handed on together with the node's name.
pub fn name_failure(name: &String, outcome: Result<(), ProcessorError>) -> (r: Result<
    (),
    ProcessNodeError,
>)
    ensures
        outcome is Ok <==> r is Ok,
        outcome matches Err(cause) ==> r == Err::<(), ProcessNodeError>(
            ProcessNodeError { node_name: *name, error: cause },
        ),
{
    match outcome {
        Ok(_) => Ok(()),
        Err(cause) => Err(ProcessNodeError { node_name: name.clone(), error: cause }),
    }
}

/// What a node makes of the outcome `outcome` of its processor, where the
/// node had `before` output buffers when the processor was called and has
/// `after` now. A processor writes into the buffers it is given: one that
/// went through but left another number of buffers is reported, at the first
/// port where a buffer is missing or is one too many.
pub fn keep_count(outcome: Result<(), ProcessorError>, before: usize, after: usize) -> (r: Result<
    (),
    ProcessorError,
>)
    ensures
        outcome is Err ==> r == outcome,
        outcome is Ok && before == after ==> r is Ok,
        outcome is Ok && before != after ==> r == Err::<(), ProcessorError>(
            ProcessorError::OutputSpecMismatch(
                if after < before {
                    after
                } else {
                    before
                },
            ),
        ),
{
    match outcome {
        Err(cause) => Err(cause),
        Ok(_) => {
            if before == after {
                Ok(())
            } else if after < before {
                Err(ProcessorError::OutputSpecMismatch(after))
            } else {
                Err(ProcessorError::OutputSpecMismatch(before))
            }
        },
    }
}

impl<T: Copy, P: FftProcessor<T> + 'static> FftProcessorNode<T, P> {
    /// A node around `processor`: it keeps the name, the port lists and the
    /// output buffers for size 0 that the processor gives when asked here.
    pub fn new(processor: P) -> (node: Self)
        ensures
            node.held() == &processor,
            node.describes(&processor, 0),
    {
        Self::new_from_boxed(Box::new(processor))
    }

    /// The same node, as a graph holds it: around a processor of any type.
    pub fn into_dyn(self) -> (node: FftProcessorNode<T>)
        ensures
            node.label() == self.label(),
            node.input_ports() == self.input_ports(),
            node.output_ports() == self.output_ports(),
            node.buffers() == self.buffers(),
    {
        let boxed: Box<dyn FftProcessor<T>> = self.processor;
        FftProcessorNode::from_parts(
            boxed,
            self.name,
            self.input_spec,
            self.output_spec,
            self.outputs,
        )
    }
}

impl<T: Copy, P: ?Sized + FftProcessor<T>> FftProcessorNode<T, P> {
    /// The processor that the node holds.
    pub closed spec fn held(&self) -> &P {
        &*self.processor
    }

    /// The node's name is the one that `processor` gives, its port lists are
    /// the ones that `processor` gives, and its output buffers are the ones
    /// that `processor` makes for `size`.
    pub open spec fn describes(&self, processor: &P, size: usize) -> bool {
        &&& exists|name: &str| call_ensures(P::name, (processor,), name) && self.label() == name@
        &&& exists|ports: Vec<SignalSpec>|
            call_ensures(P::input_spec, (processor,), ports) && self.input_ports() == ports@
        &&& exists|ports: Vec<SignalSpec>|
            call_ensures(P::output_spec, (processor,), ports) && self.output_ports() == ports@
        &&& self.holds_buffers_of(processor, size)
    }

    /// The node's output buffers are the ones that `processor` makes for
    /// `size`.
    pub open spec fn holds_buffers_of(&self, processor: &P, size: usize) -> bool {
        exists|buffers: Vec<Frame<T>>|
            call_ensures(P::create_output_buffers, (processor, size), buffers) && self.buffers()
                == buffers@
    }

    /// The node's name.
    pub closed spec fn label(&self) -> Seq<char> {
        self.name@
    }

    /// The node's input ports.
    pub closed spec fn input_ports(&self) -> Seq<SignalSpec> {
        self.input_spec@
    }

    /// The node's output ports.
    pub closed spec fn output_ports(&self) -> Seq<SignalSpec> {
        self.output_spec@
    }

    /// The node's output buffers.
    pub closed spec fn buffers(&self) -> Seq<Frame<T>> {
        self.outputs@
    }

    /// A node around `processor`, with the name and the port lists that the
    /// processor gives now, and the buffers that it makes for size 0.
    pub fn new_from_boxed(processor: Box<P>) -> (node: Self)
        ensures
            node.held() == &*processor,
            node.describes(&*processor, 0),
    {
        let shown = processor.name();
        let name = shown.to_owned();
        let input_spec = processor.input_spec();
        let output_spec = processor.output_spec();
        let outputs = processor.create_output_buffers(0);
        proof {
            assert(call_ensures(P::name, (&*processor,), shown));
            assert(call_ensures(P::input_spec, (&*processor,), input_spec));
            assert(call_ensures(P::output_spec, (&*processor,), output_spec));
            assert(call_ensures(P::create_output_buffers, (&*processor, 0usize), outputs));
        }
        Self::from_parts(processor, name, input_spec, output_spec, outputs)
    }

    /// A node made of its parts.
    pub fn from_parts(
        processor: Box<P>,
        name: String,
        input_spec: Vec<SignalSpec>,
        output_spec: Vec<SignalSpec>,
        outputs: Vec<Frame<T>>,
    ) -> (node: Self)
        ensures
            node.held() == &*processor,
            node.label() == name@,
            node.input_ports() == input_spec@,
            node.output_ports() == output_spec@,
            node.buffers() == outputs@,
    {
        FftProcessorNode { processor, name, input_spec, output_spec, outputs }
    }

    pub fn name(&self) -> (r: &str)
        ensures
            r@ == self.label(),
    {
        self.name.as_str()
    }

    pub fn input_spec(&self) -> (r: &[SignalSpec])
        ensures
            r@ == self.input_ports(),
    {
        self.input_spec.as_slice()
    }

    pub fn output_spec(&self) -> (r: &[SignalSpec])
        ensures
            r@ == self.output_ports(),
    {
        self.output_spec.as_slice()
    }

    /// The number of input ports.
    pub fn num_inputs(&self) -> (n: usize)
        ensures
            n == self.input_ports().len(),
    {
        self.input_spec.len()
    }

    /// The number of output ports.
    pub fn num_outputs(&self) -> (n: usize)
        ensures
            n == self.output_ports().len(),
    {
        self.output_spec.len()
    }

    /// The type of input port `index`, if there is such a port.
    pub fn input_type(&self, index: usize) -> (r: Option<SignalType>)
        ensures
            r == if index < self.input_ports().len() {
                Some(self.input_ports()[index as int].signal_type)
            } else {
                None
            },
    {
        if index < self.input_spec.len() {
            Some(self.input_spec[index].signal_type)
        } else {
            None
        }
    }

    /// The type of output port `index`, if there is such a port.
    pub fn output_type(&self, index: usize) -> (r: Option<SignalType>)
        ensures
            r == if index < self.output_ports().len() {
                Some(self.output_ports()[index as int].signal_type)
            } else {
                None
            },
    {
        if index < self.output_spec.len() {
            Some(self.output_spec[index].signal_type)
        } else {
            None
        }
    }

    /// The name of input port `index`, if there is such a port.
    pub fn input_name(&self, index: usize) -> (r: Option<&str>)
        ensures
            r is Some <==> index < self.input_ports().len(),
            r matches Some(name) ==> name@ == self.input_ports()[index as int].name@,
    {
        if index < self.input_spec.len() {
            Some(self.input_spec[index].name.as_str())
        } else {
            None
        }
    }

    /// The name of output port `index`, if there is such a port.
    pub fn output_name(&self, index: usize) -> (r: Option<&str>)
        ensures
            r is Some <==> index < self.output_ports().len(),
            r matches Some(name) ==> name@ == self.output_ports()[index as int].name@,
    {
        if index < self.output_spec.len() {
            Some(self.output_spec[index].name.as_str())
        } else {
            None
        }
    }

    /// The output buffers.
    pub fn outputs(&self) -> (r: &Vec<Frame<T>>)
        ensures
            r@ == self.buffers(),
    {
        &self.outputs
    }

    /// The processor.
    pub fn processor(&self) -> (r: &P)
        ensures
            r == self.held(),
    {
        &*self.processor
    }

    /// The processor, to change it. The node keeps the name and the port
    /// lists that it was made with.
    pub fn processor_mut(&mut self) -> (r: &mut P)
        ensures
            &*r == old(self).held(),
            final(self).held() == &*final(r),
            final(self).label() == old(self).label(),
            final(self).input_ports() == old(self).input_ports(),
            final(self).output_ports() == old(self).output_ports(),
            final(self).buffers() == old(self).buffers(),
    {
        &mut *self.processor
    }

    /// Exchanges the node's output buffers for `buffers`.
    pub fn swap_outputs(&mut self, buffers: &mut Vec<Frame<T>>)
        ensures
            final(self).held() == old(self).held(),
            final(self).buffers() == old(buffers)@,
            final(buffers)@ == old(self).buffers(),
            final(self).label() == old(self).label(),
            final(self).input_ports() == old(self).input_ports(),
            final(self).output_ports() == old(self).output_ports(),
    {
        core::mem::swap(&mut self.outputs, buffers);
    }

    /// Lets the processor allocate, then replaces the output buffers by the
    /// ones that the processor makes for one frame.
    pub fn allocate(&mut self, sample_rate: T)
        ensures
            final(self).label() == old(self).label(),
            final(self).input_ports() == old(self).input_ports(),
            final(self).output_ports() == old(self).output_ports(),
            final(self).holds_buffers_of(final(self).held(), 1),
    {
        self.processor.allocate(sample_rate);
        let fresh = self.processor.create_output_buffers(1);
        proof {
            assert(call_ensures(P::create_output_buffers, (self.held(), 1usize), fresh));
        }
        self.replace_outputs(fresh);
    }

    /// Puts `buffers` in the place of the node's output buffers.
    pub fn replace_outputs(&mut self, buffers: Vec<Frame<T>>)
        ensures
            final(self).buffers() == buffers@,
            final(self).held() == old(self).held(),
            final(self).label() == old(self).label(),
            final(self).input_ports() == old(self).input_ports(),
            final(self).output_ports() == old(self).output_ports(),
    {
        self.outputs = buffers;
    }

    /// Tells the processor of a new sample rate. The output buffers stay.
    pub fn resize_buffers(&mut self, sample_rate: T)
        ensures
            final(self).label() == old(self).label(),
            final(self).input_ports() == old(self).input_ports(),
            final(self).output_ports() == old(self).output_ports(),
            final(self).buffers() == old(self).buffers(),
    {
        self.processor.resize_buffers(sample_rate);
    }

    /// Runs the processor on one frame: it reads `inputs` and writes the
    /// node's output buffers. A failure comes back with the node's name; so
    /// does a processor that left the node with another number of buffers.
    pub fn process(&mut self, inputs: &ProcessorInputs<'_, T>) -> (r: Result<(), ProcessNodeError>)
        ensures
            final(self).label() == old(self).label(),
            final(self).input_ports() == old(self).input_ports(),
            final(self).output_ports() == old(self).output_ports(),
            r matches Err(failure) ==> failure.node_name@ == old(self).label(),
            r is Ok ==> final(self).buffers().len() == old(self).buffers().len(),
    {
        let before = self.outputs.len();
        let outcome = self.processor.process(inputs, &mut self.outputs);
        let checked = keep_count(outcome, before, self.outputs.len());
        name_failure(&self.name, checked)
    }
}

} // verus!
