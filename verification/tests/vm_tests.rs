use qcu::graph::DecodingGraph;
use qcu::isa::{Instruction, Opcode, opcode_byte};
use qcu::pauli_frame::PauliFrame;
use qcu::vm::VirtualMachine;

#[test]
fn opcode_bytes_are_stable() {
    assert_eq!(opcode_byte(Opcode::GateH), 0x01);
    assert_eq!(opcode_byte(Opcode::GateS), 0x02);
    assert_eq!(opcode_byte(Opcode::GateCNOT), 0x03);
    assert_eq!(opcode_byte(Opcode::Measure), 0x10);
    assert_eq!(opcode_byte(Opcode::Decode), 0x20);
    assert_eq!(opcode_byte(Opcode::Reset), 0x30);
    assert_eq!(opcode_byte(Opcode::Halt), 0xFF);
}

#[test]
fn instruction_encodes_fields() {
    let instr = Instruction::new(Opcode::Measure, 5, 9);
    assert_eq!(instr.opcode, 0x10);
    assert_eq!(instr.operand_1, 5);
    assert_eq!(instr.operand_2, 9);
}

#[test]
fn clean_frame_predicts_no_errors() {
    let mut frame = PauliFrame::new(8);
    assert!(!frame.has_x_error(0));
    frame.apply_hadamard(0);
    frame.apply_cnot(0, 1);
    assert!(!frame.has_x_error(0));
    assert!(!frame.has_x_error(1));
    frame.reset();
    assert!(!frame.has_x_error(3));
}

#[test]
fn measurements_collect_syndromes_and_decode() {
    let mut g = DecodingGraph::new(2);
    g.add_edge(0, 1).unwrap();
    let mut vm = VirtualMachine::new(&g, 2);

    // the frame predicts 0; a hardware 1 fires the detector
    vm.execute(&Instruction::new(Opcode::Measure, 0, 0), true).unwrap();
    vm.execute(&Instruction::new(Opcode::Measure, 1, 1), true).unwrap();
    assert_eq!(vm.syndrome_buffer, vec![0, 1]);

    vm.execute(&Instruction::new(Opcode::Decode, 0, 0), false).unwrap();
    assert_eq!(vm.correction_buffer, vec![(0, 1)]);
    assert!(vm.syndrome_buffer.is_empty());
}

#[test]
fn agreeing_measurement_fires_nothing() {
    let mut g = DecodingGraph::new(2);
    g.add_edge(0, 1).unwrap();
    let mut vm = VirtualMachine::new(&g, 2);
    vm.execute(&Instruction::new(Opcode::Measure, 0, 0), false).unwrap();
    assert!(vm.syndrome_buffer.is_empty());
}

#[test]
fn reset_clears_pending_syndromes() {
    let mut g = DecodingGraph::new(2);
    g.add_edge(0, 1).unwrap();
    let mut vm = VirtualMachine::new(&g, 2);
    vm.execute(&Instruction::new(Opcode::Measure, 0, 0), true).unwrap();
    assert_eq!(vm.syndrome_buffer.len(), 1);
    vm.execute(&Instruction::new(Opcode::Reset, 0, 0), false).unwrap();
    assert!(vm.syndrome_buffer.is_empty());
}

#[test]
fn unknown_opcodes_are_no_ops() {
    let mut g = DecodingGraph::new(2);
    g.add_edge(0, 1).unwrap();
    let mut vm = VirtualMachine::new(&g, 2);
    vm.execute(&Instruction::new(Opcode::Measure, 0, 0), true).unwrap();
    vm.execute(&Instruction::new(Opcode::GateS, 0, 0), false).unwrap();
    vm.execute(&Instruction::new(Opcode::Halt, 0, 0), false).unwrap();
    assert_eq!(vm.syndrome_buffer, vec![0]);
}
