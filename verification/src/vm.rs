//! Virtual machine over the instruction set: it keeps a Pauli frame,
//! collects syndromes from measurements, and runs the decoder on demand.
//!
//! Gate instructions update the frame; a measurement compares the
//! hardware result against the frame's prediction and records the
//! instruction's detector when they disagree; a decode instruction hands
//! the accumulated detectors and the shared graph to the union-find
//! decoder; reset clears the frame and the pending syndromes.  Unknown
//! opcodes (including the phase gate, which leaves the frame's X/Z
//! registers unchanged) are no-ops.

use vstd::prelude::*;

verus! {

use crate::QecError;
use crate::decoder::{UnionFindDecoder, decoder_solve};
use crate::graph::DecodingGraph;
use crate::isa::{Instruction, Opcode, opcode_value};
use crate::pauli_frame::PauliFrame;

/// Virtual machine state: the Pauli frame, the decoder, the shared
/// decoding graph, and the syndrome and correction buffers.
pub struct VirtualMachine<'a> {
    pub frame: PauliFrame,
    pub decoder: UnionFindDecoder,
    pub graph: &'a DecodingGraph,
    pub syndrome_buffer: Vec<usize>,
    pub correction_buffer: Vec<(usize, usize)>,
}

impl<'a> VirtualMachine<'a> {
    /// Machine invariant: the frame is well-formed and the decoder's
    /// capacity covers the graph.
    pub open spec fn wf(&self) -> bool {
        &&& self.frame.wf()
        &&& self.graph.wf()
        &&& self.graph.max_node_id <= self.decoder.capacity_spec()
        &&& self.decoder.capacity_spec() + 63 <= usize::MAX
    }

    /// Creates a machine over `graph` tracking `num_qubits` qubits.
    pub fn new(graph: &'a DecodingGraph, num_qubits: usize) -> (r: Self)
        requires
            graph.wf(),
            num_qubits + 63 <= usize::MAX,
            graph.max_node_id + 63 <= usize::MAX,
        ensures
            r.wf(),
            r.graph == graph,
            r.frame.bit_len() >= num_qubits,
            r.syndrome_buffer@ == Seq::<usize>::empty(),
            r.correction_buffer@ == Seq::<(usize, usize)>::empty(),
            forall|i: int| 0 <= i < r.frame.bit_len() ==> !(#[trigger] r.frame.x_bits()[i]),
            forall|i: int| 0 <= i < r.frame.bit_len() ==> !(#[trigger] r.frame.z_bits()[i]),
    {
        let n = graph.num_nodes();
        VirtualMachine {
            frame: PauliFrame::new(num_qubits),
            decoder: UnionFindDecoder::new(n),
            graph,
            syndrome_buffer: Vec::new(),
            correction_buffer: Vec::new(),
        }
    }

    /// Executes one instruction against the machine state, taking the
    /// hardware's measurement result for measure instructions.
    pub fn execute(&mut self, instr: &Instruction, hw_measure: bool) -> (r: Result<(), QecError>)
        requires
            old(self).wf(),
            instr.opcode == opcode_value(Opcode::GateH) ==> instr.operand_1 < old(self).frame.bit_len(),
            instr.opcode == opcode_value(Opcode::GateCNOT) ==> instr.operand_1 < old(self).frame.bit_len() && instr.operand_2 < old(self).frame.bit_len(),
            instr.opcode == opcode_value(Opcode::Measure) ==> instr.operand_1 < old(self).frame.bit_len(),
        ensures
            r == Ok::<(), QecError>(()),
            final(self).wf(),
            final(self).graph == old(self).graph,
            final(self).frame.bit_len() == old(self).frame.bit_len(),
            instr.opcode == opcode_value(Opcode::GateH) ==> {
                &&& final(self).frame.x_bits() == old(self).frame.x_bits().update(
                    instr.operand_1 as int,
                    old(self).frame.z_bits()[instr.operand_1 as int],
                )
                &&& final(self).frame.z_bits() == old(self).frame.z_bits().update(
                    instr.operand_1 as int,
                    old(self).frame.x_bits()[instr.operand_1 as int],
                )
                &&& final(self).syndrome_buffer@ == old(self).syndrome_buffer@
                &&& final(self).correction_buffer@ == old(self).correction_buffer@
            },
            instr.opcode == opcode_value(Opcode::GateCNOT) ==> {
                &&& final(self).frame.x_bits() == old(self).frame.x_bits().update(
                    instr.operand_2 as int,
                    old(self).frame.x_bits()[instr.operand_2 as int] != old(self).frame.x_bits()[instr.operand_1 as int],
                )
                &&& final(self).frame.z_bits() == old(self).frame.z_bits().update(
                    instr.operand_1 as int,
                    old(self).frame.z_bits()[instr.operand_1 as int] != old(self).frame.z_bits()[instr.operand_2 as int],
                )
                &&& final(self).syndrome_buffer@ == old(self).syndrome_buffer@
                &&& final(self).correction_buffer@ == old(self).correction_buffer@
            },
            instr.opcode == opcode_value(Opcode::Measure) ==> {
                &&& final(self).frame.x_bits() == old(self).frame.x_bits()
                &&& final(self).frame.z_bits() == old(self).frame.z_bits()
                &&& final(self).syndrome_buffer@ == (if old(self).frame.x_bits()[instr.operand_1 as int] != hw_measure {
                    old(self).syndrome_buffer@.push(instr.operand_2 as usize)
                } else {
                    old(self).syndrome_buffer@
                })
                &&& final(self).correction_buffer@ == old(self).correction_buffer@
            },
            instr.opcode == opcode_value(Opcode::Decode) ==> {
                &&& final(self).correction_buffer@ == decoder_solve(
                    old(self).graph.fast_edges@,
                    old(self).syndrome_buffer@,
                    old(self).graph.max_node_id as int,
                ).1
                &&& final(self).syndrome_buffer@ == Seq::<usize>::empty()
                &&& final(self).frame.x_bits() == old(self).frame.x_bits()
                &&& final(self).frame.z_bits() == old(self).frame.z_bits()
            },
            instr.opcode == opcode_value(Opcode::Reset) ==> {
                &&& forall|i: int|
                    0 <= i < final(self).frame.bit_len() ==> !(#[trigger] final(self).frame.x_bits()[i])
                &&& forall|i: int|
                    0 <= i < final(self).frame.bit_len() ==> !(#[trigger] final(self).frame.z_bits()[i])
                &&& final(self).syndrome_buffer@ == Seq::<usize>::empty()
                &&& final(self).correction_buffer@ == old(self).correction_buffer@
            },
            (instr.opcode != opcode_value(Opcode::GateH) && instr.opcode != opcode_value(
                Opcode::GateCNOT,
            ) && instr.opcode != opcode_value(Opcode::Measure) && instr.opcode != opcode_value(
                Opcode::Decode,
            ) && instr.opcode != opcode_value(Opcode::Reset)) ==> {
                &&& final(self).frame.x_bits() == old(self).frame.x_bits()
                &&& final(self).frame.z_bits() == old(self).frame.z_bits()
                &&& final(self).syndrome_buffer@ == old(self).syndrome_buffer@
                &&& final(self).correction_buffer@ == old(self).correction_buffer@
            },
    {
        let op = instr.opcode;

        if op == crate::isa::opcode_byte(Opcode::GateH) {
            self.frame.apply_hadamard(instr.operand_1 as usize);
        } else if op == crate::isa::opcode_byte(Opcode::GateCNOT) {
            self.frame.apply_cnot(instr.operand_1 as usize, instr.operand_2 as usize);
        } else if op == crate::isa::opcode_byte(Opcode::Measure) {
            let expected = self.frame.has_x_error(instr.operand_1 as usize);
            let is_syndrome = expected != hw_measure;
            if is_syndrome {
                self.syndrome_buffer.push(instr.operand_2 as usize);
            }
        } else if op == crate::isa::opcode_byte(Opcode::Decode) {
            let graph = self.graph;
            self.decoder.solve_into(
                graph,
                self.syndrome_buffer.as_slice(),
                &mut self.correction_buffer,
            )?;
            self.syndrome_buffer.clear();
        } else if op == crate::isa::opcode_byte(Opcode::Reset) {
            self.frame.reset();
            self.syndrome_buffer.clear();
        }

        Ok(())
    }
}

} // verus!
