use orus::vm::assembler::assemble;
use orus::vm::instruction::InstructionSet;
use orus::vm::machine::{RuntimeFault, MAX_PROGRAM_SIZE, NUM_REGISTERS, VM};

fn run_words(words: &[i32]) -> (VM, Result<(), RuntimeFault>) {
    let mut vm = VM::new();
    vm.load_program(words);
    let r = vm.run();
    (vm, r)
}

fn run_text(text: &str) -> (VM, Result<(), RuntimeFault>) {
    run_words(&assemble(text).unwrap())
}

#[test]
fn sum_of_ten_down_to_one() {
    let (vm, r) = run_text(
        "LOAD_CONST R0,10\nLOAD_CONST R1,1\nLOAD_CONST R2,0\nloop:\nADD R2,R0\nSUB R0,R1\nJMP_IF_NOT_ZERO R0 loop\nPRINT_REG R2\nHALT",
    );
    assert_eq!(r, Ok(()));
    assert_eq!(vm.output, vec![(2, 55)]);
    assert!(!vm.running);
}

#[test]
fn division_by_zero_faults_and_keeps_registers() {
    let (vm, r) = run_text("LOAD_CONST R0, 7\nLOAD_CONST R1, 0\nDIV R0, R1\nPRINT_REG R0\nHALT");
    assert_eq!(r, Err(RuntimeFault::DivisionByZero));
    assert_eq!(vm.registers[0], 7);
    assert_eq!(vm.registers[1], 0);
    assert!(vm.output.is_empty());
    assert!(!vm.running);
}

#[test]
fn modulo_by_zero_faults_and_keeps_registers() {
    let (vm, r) = run_text("LOAD_CONST R2, -9\nMOD R2, R3\nHALT");
    assert_eq!(r, Err(RuntimeFault::ModuloByZero));
    assert_eq!(vm.registers[2], -9);
}

#[test]
fn jump_beyond_image_faults() {
    assert_eq!(run_words(&[9, MAX_PROGRAM_SIZE as i32]).1, Err(RuntimeFault::InvalidJumpAddress));
    assert_eq!(run_words(&[9, -1]).1, Err(RuntimeFault::InvalidJumpAddress));
    assert_eq!(run_words(&[0, 0, 1, 10, 0, 1000]).1, Err(RuntimeFault::InvalidJumpAddress));
    assert_eq!(run_words(&[9, 255]).1, Err(RuntimeFault::ProgramCounterOutOfBounds));
}

#[test]
fn register_beyond_file_faults() {
    let (vm, r) = run_words(&[0, NUM_REGISTERS as i32, 5, 8]);
    assert_eq!(r, Err(RuntimeFault::InvalidRegister));
    assert_eq!(vm.registers.iter().filter(|v| **v != 0).count(), 0);
    assert_eq!(run_words(&[7, -1]).1, Err(RuntimeFault::InvalidRegister));
    assert_eq!(run_words(&[2, 0, 256]).1, Err(RuntimeFault::InvalidRegister));
    assert_eq!(run_words(&[0, 255, 5, 7, 255, 8]).0.output, vec![(255, 5)]);
}

#[test]
fn unknown_opcode_faults() {
    assert_eq!(run_words(&[42]).1, Err(RuntimeFault::UnknownOpcode));
    assert_eq!(run_words(&[-1]).1, Err(RuntimeFault::UnknownOpcode));
}

#[test]
fn running_off_the_image_faults() {
    assert_eq!(run_words(&[]).1, Err(RuntimeFault::ProgramCounterOutOfBounds));
}

#[test]
fn oversized_program_is_refused() {
    let mut vm = VM::new();
    vm.load_program(&vec![8; MAX_PROGRAM_SIZE + 1]);
    assert_eq!(vm.fault, Some(RuntimeFault::ProgramTooLarge));
    assert_eq!(vm.run(), Err(RuntimeFault::ProgramTooLarge));
    let (vm, r) = run_words(&vec![8; MAX_PROGRAM_SIZE]);
    assert_eq!(r, Ok(()));
    assert_eq!(vm.instruction_count, 1);
}

#[test]
fn endless_loop_hits_step_limit() {
    let (vm, r) = run_text("top:\nJMP top");
    assert_eq!(r, Err(RuntimeFault::StepLimitExceeded));
    assert_eq!(vm.instruction_count, 1_000_000);
}

#[test]
fn arithmetic_wraps() {
    let (vm, _) = run_text(
        "LOAD_CONST R0, 2147483647\nLOAD_CONST R1, 2\nMUL R0, R1\nLOAD_CONST R2, 2147483647\nLOAD_CONST R3, 1\nADD R2, R3\nLOAD_CONST R4, -2147483648\nSUB R4, R3\nHALT",
    );
    assert_eq!(vm.registers[0], -2);
    assert_eq!(vm.registers[2], -2147483648);
    assert_eq!(vm.registers[4], 2147483647);
}

#[test]
fn division_truncates() {
    let (vm, _) = run_text(
        "LOAD_CONST R0, -7\nLOAD_CONST R1, 2\nMOV R2, R0\nDIV R0, R1\nMOD R2, R1\nLOAD_CONST R3, -2147483648\nLOAD_CONST R4, -1\nMOV R5, R3\nDIV R3, R4\nMOD R5, R4\nHALT",
    );
    assert_eq!(vm.registers[0], -3);
    assert_eq!(vm.registers[2], -1);
    assert_eq!(vm.registers[3], -2147483648);
    assert_eq!(vm.registers[5], 0);
}

#[test]
fn opcode_numbering() {
    let all = [
        InstructionSet::LoadConst,
        InstructionSet::Mov,
        InstructionSet::Add,
        InstructionSet::Sub,
        InstructionSet::Mul,
        InstructionSet::Mod,
        InstructionSet::Div,
        InstructionSet::PrintReg,
        InstructionSet::Halt,
        InstructionSet::Jump,
        InstructionSet::JumpIfNotZero,
    ];
    for (i, ins) in all.iter().enumerate() {
        assert_eq!(ins.opcode(), i as i32);
        assert_eq!(InstructionSet::from_i32(i as i32), Some(*ins));
    }
    assert_eq!(InstructionSet::from_i32(11), None);
}
