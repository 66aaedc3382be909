use vstd::prelude::*;
use crate::block::{Input, Output, BLOCK_LEN};
use crate::buffer::BUFFER_LEN;

verus! {

/// Name and description of a processor or of one of its blocks.
#[derive(Clone, Copy, PartialEq, Eq, Debug)]
pub struct About {
    pub name: &'static str,
    pub desc: &'static str,
}

/// Descriptive metadata of a processor; purely informational.
pub trait Info {
    fn info(&self) -> About;

    fn input_info(&self, idx: usize) -> About;

    fn output_info(&self, idx: usize) -> About;

    /// Number of input blocks the processor reads.
    fn num_inputs(&self) -> usize;

    /// Number of output blocks the processor writes.
    fn num_outputs(&self) -> usize;
}

/// The inputs and outputs are well formed, block by block.
pub open spec fn blocks_wf<S>(ins: Seq<Input<S>>, outs: Seq<Output<S>>) -> bool {
    &&& forall|i: int| 0 <= i < ins.len() ==> (#[trigger] ins[i])@.wf()
    &&& forall|i: int| 0 <= i < outs.len() ==> (#[trigger] outs[i])@.wf()
}

/// `after` differs from `before` at most in the samples its buffers hold:
/// the same blocks, the same wiring, the same counters.
pub open spec fn same_wiring<S>(
    before_ins: Seq<Input<S>>,
    before_outs: Seq<Output<S>>,
    after_ins: Seq<Input<S>>,
    after_outs: Seq<Output<S>>,
) -> bool {
    &&& after_ins.len() == before_ins.len()
    &&& after_outs.len() == before_outs.len()
    &&& forall|i: int|
        0 <= i < before_ins.len() ==> {
            &&& (#[trigger] after_ins[i])@.block.conns == before_ins[i]@.block.conns
            &&& after_ins[i]@.block.num_cons == before_ins[i]@.block.num_cons
            &&& after_ins[i]@.cnt == before_ins[i]@.cnt
        }
    &&& forall|i: int|
        0 <= i < before_outs.len() ==> {
            &&& (#[trigger] after_outs[i])@.block.conns == before_outs[i]@.block.conns
            &&& after_outs[i]@.block.num_cons == before_outs[i]@.block.num_cons
            &&& after_outs[i]@.cnt == before_outs[i]@.cnt
        }
}

/// The computation of a node: it reads its input blocks and writes its output
/// blocks, touching samples only.
pub trait Process<S>: Info {
    /// Consumes one tick of input samples and writes one tick of output
    /// samples: every output buffer is left fully written.
    fn process(&mut self, ins: &mut Vec<Input<S>>, outs: &mut Vec<Output<S>>)
        requires
            blocks_wf(old(ins)@, old(outs)@),
        ensures
            blocks_wf(final(ins)@, final(outs)@),
            same_wiring(old(ins)@, old(outs)@, final(ins)@, final(outs)@),
            forall|i: int, j: int|
                0 <= i < final(outs)@.len() && 0 <= j < BLOCK_LEN ==> (#[trigger] final(outs)@[i]@.block.bufs[j]).wr
                    == BUFFER_LEN,
    ;

    /// Reinitialises internal state and seeds the default input values.
    fn reset(&mut self, ins: &mut Vec<Input<S>>, outs: &mut Vec<Output<S>>)
        requires
            blocks_wf(old(ins)@, old(outs)@),
        ensures
            blocks_wf(final(ins)@, final(outs)@),
            same_wiring(old(ins)@, old(outs)@, final(ins)@, final(outs)@),
    ;
}

/// A node that a unit can hold and drive.
pub trait Processor<S>: Process<S> {

}

} // verus!
