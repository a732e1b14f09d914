//! Instruction set of the control unit: quantum gate applications,
//! measurements, decode triggers, and system control, in a compact binary
//! encoding.

use vstd::prelude::*;

verus! {

/// Operations of the error-correction pipeline.
#[derive(Debug, Clone, Copy, PartialEq, Eq, Structural)]
pub enum Opcode {
    /// Apply a Hadamard gate to a qubit.
    GateH,
    /// Apply a phase gate (S) to a qubit.
    GateS,
    /// Apply a CNOT gate (control, target).
    GateCNOT,
    /// Measure a qubit; the result is compared against the Pauli frame to
    /// decide whether a syndrome fired.
    Measure,
    /// Run the union-find decoder on the accumulated syndromes.
    Decode,
    /// Reset the Pauli frame and clear the syndrome buffer.
    Reset,
    /// Halt execution.
    Halt,
}

/// The byte encoding an opcode.
pub open spec fn opcode_value(op: Opcode) -> u8 {
    match op {
        Opcode::GateH => 0x01,
        Opcode::GateS => 0x02,
        Opcode::GateCNOT => 0x03,
        Opcode::Measure => 0x10,
        Opcode::Decode => 0x20,
        Opcode::Reset => 0x30,
        Opcode::Halt => 0xFF,
    }
}

/// Encodes an opcode as its instruction byte.
pub fn opcode_byte(op: Opcode) -> (r: u8)
    ensures
        r == opcode_value(op),
{
    match op {
        Opcode::GateH => 0x01,
        Opcode::GateS => 0x02,
        Opcode::GateCNOT => 0x03,
        Opcode::Measure => 0x10,
        Opcode::Decode => 0x20,
        Opcode::Reset => 0x30,
        Opcode::Halt => 0xFF,
    }
}

/// One binary instruction: an opcode byte and two 16-bit operands (qubit
/// index or control, target or detector id).
#[derive(Debug, Clone, Copy)]
pub struct Instruction {
    pub opcode: u8,
    pub operand_1: u16,
    pub operand_2: u16,
}

impl Instruction {
    /// Builds an instruction from an opcode and its two operands.
    pub fn new(opcode: Opcode, op1: u16, op2: u16) -> (r: Self)
        ensures
            r.opcode == opcode_value(opcode),
            r.operand_1 == op1,
            r.operand_2 == op2,
    {
        Instruction { opcode: opcode_byte(opcode), operand_1: op1, operand_2: op2 }
    }
}

} // verus!
