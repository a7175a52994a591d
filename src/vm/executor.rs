use vstd::prelude::*;
use crate::vm::instruction::InstructionSet;
use crate::vm::machine::{exec_spec, RuntimeFault, VM, MAX_PROGRAM_SIZE};

verus! {

/// Executes `instruction` on a machine whose program counter is past the
/// opcode word.
pub fn execute_instruction(vm: &mut VM, instruction: InstructionSet)
    requires
        old(vm).wf(),
    ensures
        final(vm).wf(),
        final(vm)@ == exec_spec(old(vm)@, instruction),
{
    match instruction {
        InstructionSet::LoadConst => execute_load_const(vm),
        InstructionSet::PrintReg => execute_print_reg(vm),
        InstructionSet::Halt => execute_halt(vm),
        InstructionSet::Jump => execute_jump(vm),
        InstructionSet::JumpIfNotZero => execute_jump_if_not_zero(vm),
        _ => execute_binary(vm, instruction),
    }
}

fn execute_load_const(vm: &mut VM)
    requires
        old(vm).wf(),
    ensures
        final(vm).wf(),
        final(vm)@ == exec_spec(old(vm)@, InstructionSet::LoadConst),
{
    let reg_idx = match vm.get_register() {
        Some(reg) => reg,
        None => return,
    };
    let value = match vm.get_immediate() {
        Some(val) => val,
        None => return,
    };
    vm.registers[reg_idx] = value;
}

/// `MOV`, `ADD`, `SUB`, `MUL`, `DIV` and `MOD`: the first register receives
/// the result; a zero divisor stops the machine and changes no register.
fn execute_binary(vm: &mut VM, op: InstructionSet)
    requires
        old(vm).wf(),
        !(op is LoadConst || op is PrintReg || op is Halt || op is Jump || op is JumpIfNotZero),
    ensures
        final(vm).wf(),
        final(vm)@ == exec_spec(old(vm)@, op),
{
    let reg1_idx = match vm.get_register() {
        Some(reg) => reg,
        None => return,
    };
    let reg2_idx = match vm.get_register() {
        Some(reg) => reg,
        None => return,
    };
    let x = vm.registers[reg1_idx];
    let y = vm.registers[reg2_idx];
    match op {
        InstructionSet::Mov => {
            vm.registers[reg1_idx] = y;
        },
        InstructionSet::Add => {
            vm.registers[reg1_idx] = x.wrapping_add(y);
        },
        InstructionSet::Sub => {
            vm.registers[reg1_idx] = x.wrapping_sub(y);
        },
        InstructionSet::Mul => {
            vm.registers[reg1_idx] = x.wrapping_mul(y);
        },
        InstructionSet::Div => {
            if y == 0 {
                vm.running = false;
                vm.fault = Some(RuntimeFault::DivisionByZero);
                return;
            }
            vm.registers[reg1_idx] = match x.checked_div(y) {
                Some(q) => q,
                None => x,
            };
        },
        _ => {
            if y == 0 {
                vm.running = false;
                vm.fault = Some(RuntimeFault::ModuloByZero);
                return;
            }
            vm.registers[reg1_idx] = match x.checked_rem(y) {
                Some(m) => m,
                None => 0,
            };
        },
    }
}

fn execute_print_reg(vm: &mut VM)
    requires
        old(vm).wf(),
    ensures
        final(vm).wf(),
        final(vm)@ == exec_spec(old(vm)@, InstructionSet::PrintReg),
{
    let reg_idx = match vm.get_register() {
        Some(reg) => reg,
        None => return,
    };
    let value = vm.registers[reg_idx];
    vm.output.push((reg_idx, value));
}

fn execute_jump(vm: &mut VM)
    requires
        old(vm).wf(),
    ensures
        final(vm).wf(),
        final(vm)@ == exec_spec(old(vm)@, InstructionSet::Jump),
{
    let addr = match vm.get_immediate() {
        Some(addr) => addr,
        None => return,
    };
    if addr < 0 || addr >= MAX_PROGRAM_SIZE as i32 {
        vm.running = false;
        vm.fault = Some(RuntimeFault::InvalidJumpAddress);
        return;
    }
    vm.pc = addr as usize;
}

fn execute_jump_if_not_zero(vm: &mut VM)
    requires
        old(vm).wf(),
    ensures
        final(vm).wf(),
        final(vm)@ == exec_spec(old(vm)@, InstructionSet::JumpIfNotZero),
{
    let reg_idx = match vm.get_register() {
        Some(reg) => reg,
        None => return,
    };
    let addr = match vm.get_immediate() {
        Some(addr) => addr,
        None => return,
    };
    if addr < 0 || addr >= MAX_PROGRAM_SIZE as i32 {
        vm.running = false;
        vm.fault = Some(RuntimeFault::InvalidJumpAddress);
        return;
    }
    if vm.registers[reg_idx] != 0 {
        vm.pc = addr as usize;
    }
}

fn execute_halt(vm: &mut VM)
    requires
        old(vm).wf(),
    ensures
        final(vm).wf(),
        final(vm)@ == exec_spec(old(vm)@, InstructionSet::Halt),
{
    vm.running = false;
}

} // verus!
