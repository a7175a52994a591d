use vstd::prelude::*;
use crate::vm::executor::execute_instruction;
use crate::vm::instruction::{spec_decode, InstructionSet};

verus! {

/// Size of the register file.
pub const NUM_REGISTERS: usize = 256;

/// Capacity of the program image, in words.
pub const MAX_PROGRAM_SIZE: usize = 256;

/// Number of instructions a run may execute before it is stopped.
pub const MAX_STEPS: u64 = 1000000;

/// Why a run stopped abnormally.
#[derive(Debug, Clone, Copy, PartialEq, Eq, Structural)]
pub enum RuntimeFault {
    /// The program counter left the program image.
    ProgramCounterOutOfBounds,
    /// The word at the program counter is no opcode.
    UnknownOpcode,
    /// A register operand is negative or at least `NUM_REGISTERS`.
    InvalidRegister,
    /// A jump target is negative or at least `MAX_PROGRAM_SIZE`.
    InvalidJumpAddress,
    DivisionByZero,
    ModuloByZero,
    /// The program handed to the loader does not fit in the image.
    ProgramTooLarge,
    /// The run executed `MAX_STEPS` instructions without halting.
    StepLimitExceeded,
}

/// The mathematical state of a machine.
pub struct VMState {
    pub registers: Seq<i32>,
    pub pc: int,
    pub program: Seq<i32>,
    pub running: bool,
    pub count: int,
    pub output: Seq<(usize, i32)>,
    pub fault: Option<RuntimeFault>,
}

/// The register machine. `output` holds one entry per executed print, the
/// register index and the value it held; `fault` says why a run stopped
/// abnormally.
#[derive(Debug)]
pub struct VM {
    pub registers: Vec<i32>,
    pub pc: usize,
    pub program: Vec<i32>,
    pub running: bool,
    pub instruction_count: u64,
    pub output: Vec<(usize, i32)>,
    pub fault: Option<RuntimeFault>,
}

impl View for VM {
    type V = VMState;

    open spec fn view(&self) -> VMState {
        VMState {
            registers: self.registers@,
            pc: self.pc as int,
            program: self.program@,
            running: self.running,
            count: self.instruction_count as int,
            output: self.output@,
            fault: self.fault,
        }
    }
}

pub open spec fn valid_register(w: i32) -> bool {
    0 <= w < NUM_REGISTERS
}

pub open spec fn valid_address(w: i32) -> bool {
    0 <= w < MAX_PROGRAM_SIZE
}

/// The state stopped by fault `f`.
pub open spec fn halt_with(s: VMState, f: RuntimeFault) -> VMState {
    VMState { running: false, fault: Some(f), ..s }
}

/// Reads the word at the program counter as an operand and moves past it.
pub open spec fn read_immediate(s: VMState) -> (VMState, Option<i32>) {
    if 0 <= s.pc < MAX_PROGRAM_SIZE {
        (VMState { pc: s.pc + 1, ..s }, Some(s.program[s.pc]))
    } else {
        (halt_with(s, RuntimeFault::ProgramCounterOutOfBounds), None)
    }
}

/// Reads a register operand; an index outside the register file is a fault.
pub open spec fn read_register(s: VMState) -> (VMState, Option<int>) {
    let (t, w) = read_immediate(s);
    match w {
        None => (t, None),
        Some(w) => if valid_register(w) {
            (t, Some(w as int))
        } else {
            (halt_with(t, RuntimeFault::InvalidRegister), None)
        },
    }
}

/// Truncating division that wraps on `i32::MIN / -1`.
pub open spec fn wrapping_quotient(x: i32, y: i32) -> i32 {
    match x.checked_div(y) {
        Some(q) => q,
        None => x,
    }
}

/// Remainder of truncating division; `i32::MIN % -1` is 0.
pub open spec fn wrapping_remainder(x: i32, y: i32) -> i32 {
    match x.checked_rem(y) {
        Some(r) => r,
        None => 0,
    }
}

pub open spec fn set_register(s: VMState, r: int, v: i32) -> VMState {
    VMState { registers: s.registers.update(r, v), ..s }
}

/// The effect of a two-register operation on registers `a` and `b`.
pub open spec fn apply_binary(s: VMState, op: InstructionSet, a: int, b: int) -> VMState {
    let x = s.registers[a];
    let y = s.registers[b];
    match op {
        InstructionSet::Mov => set_register(s, a, y),
        InstructionSet::Add => set_register(s, a, x.wrapping_add(y)),
        InstructionSet::Sub => set_register(s, a, x.wrapping_sub(y)),
        InstructionSet::Mul => set_register(s, a, x.wrapping_mul(y)),
        InstructionSet::Div => if y == 0 {
            halt_with(s, RuntimeFault::DivisionByZero)
        } else {
            set_register(s, a, wrapping_quotient(x, y))
        },
        InstructionSet::Mod => if y == 0 {
            halt_with(s, RuntimeFault::ModuloByZero)
        } else {
            set_register(s, a, wrapping_remainder(x, y))
        },
        _ => s,
    }
}

/// Executes `op` on a state whose program counter is past the opcode word.
pub open spec fn exec_spec(s: VMState, op: InstructionSet) -> VMState {
    match op {
        InstructionSet::LoadConst => {
            let (s1, r) = read_register(s);
            match r {
                None => s1,
                Some(r) => {
                    let (s2, v) = read_immediate(s1);
                    match v {
                        None => s2,
                        Some(v) => set_register(s2, r, v),
                    }
                },
            }
        },
        InstructionSet::PrintReg => {
            let (s1, r) = read_register(s);
            match r {
                None => s1,
                Some(r) => VMState { output: s1.output.push((r as usize, s1.registers[r])), ..s1 },
            }
        },
        InstructionSet::Halt => VMState { running: false, ..s },
        InstructionSet::Jump => {
            let (s1, a) = read_immediate(s);
            match a {
                None => s1,
                Some(a) => if valid_address(a) {
                    VMState { pc: a as int, ..s1 }
                } else {
                    halt_with(s1, RuntimeFault::InvalidJumpAddress)
                },
            }
        },
        InstructionSet::JumpIfNotZero => {
            let (s1, r) = read_register(s);
            match r {
                None => s1,
                Some(r) => {
                    let (s2, a) = read_immediate(s1);
                    match a {
                        None => s2,
                        Some(a) => if !valid_address(a) {
                            halt_with(s2, RuntimeFault::InvalidJumpAddress)
                        } else if s2.registers[r] != 0 {
                            VMState { pc: a as int, ..s2 }
                        } else {
                            s2
                        },
                    }
                },
            }
        },
        _ => {
            let (s1, a) = read_register(s);
            match a {
                None => s1,
                Some(a) => {
                    let (s2, b) = read_register(s1);
                    match b {
                        None => s2,
                        Some(b) => apply_binary(s2, op, a, b),
                    }
                },
            }
        },
    }
}

/// One fetch-decode-execute cycle.
pub open spec fn step(s: VMState) -> VMState {
    if !(0 <= s.pc < MAX_PROGRAM_SIZE) {
        halt_with(s, RuntimeFault::ProgramCounterOutOfBounds)
    } else {
        match spec_decode(s.program[s.pc]) {
            None => halt_with(s, RuntimeFault::UnknownOpcode),
            Some(op) => exec_spec(VMState { pc: s.pc + 1, count: s.count + 1, ..s }, op),
        }
    }
}

pub open spec fn run_measure(s: VMState) -> int {
    (MAX_STEPS - s.count) * 2 + if s.running { 1int } else { 0int }
}

/// Steps until the machine stops, or until `MAX_STEPS` instructions ran.
pub open spec fn run_spec(s: VMState) -> VMState
    decreases run_measure(s),
{
    if !s.running {
        s
    } else if s.count >= MAX_STEPS || s.count < 0 {
        halt_with(s, RuntimeFault::StepLimitExceeded)
    } else {
        run_spec(step(s))
    }
}

/// A state whose image and register file have their fixed sizes.
pub open spec fn state_wf(s: VMState) -> bool {
    &&& s.registers.len() == NUM_REGISTERS
    &&& s.program.len() == MAX_PROGRAM_SIZE
    &&& 0 <= s.pc
}

/// A `DIV` or `MOD` whose divisor register holds zero stops the machine
/// with the matching fault and leaves every register as it was.
pub proof fn lemma_zero_divisor_faults(s: VMState)
    requires
        state_wf(s),
        s.pc + 2 < MAX_PROGRAM_SIZE,
        s.program[s.pc] == 5 || s.program[s.pc] == 6,
        valid_register(s.program[s.pc + 1]),
        valid_register(s.program[s.pc + 2]),
        s.registers[s.program[s.pc + 2] as int] == 0,
    ensures
        !step(s).running,
        step(s).fault == Some(
            if s.program[s.pc] == 6 {
                RuntimeFault::DivisionByZero
            } else {
                RuntimeFault::ModuloByZero
            },
        ),
        step(s).registers == s.registers,
        step(s).output == s.output,
{
}

/// A jump whose target lies outside the program image stops the machine
/// with `InvalidJumpAddress`; the target is never wrapped or truncated.
pub proof fn lemma_jump_out_of_image_faults(s: VMState)
    requires
        state_wf(s),
        s.pc + 2 < MAX_PROGRAM_SIZE,
        s.program[s.pc] == 9 && !valid_address(s.program[s.pc + 1]) || s.program[s.pc] == 10
            && valid_register(s.program[s.pc + 1]) && !valid_address(s.program[s.pc + 2]),
    ensures
        !step(s).running,
        step(s).fault == Some(RuntimeFault::InvalidJumpAddress),
        step(s).registers == s.registers,
{
}

/// An instruction whose first operand names a register outside the register
/// file stops the machine with `InvalidRegister`.
pub proof fn lemma_register_out_of_file_faults(s: VMState)
    requires
        state_wf(s),
        s.pc + 1 < MAX_PROGRAM_SIZE,
        0 <= s.program[s.pc] <= 10,
        s.program[s.pc] != 8 && s.program[s.pc] != 9,
        !valid_register(s.program[s.pc + 1]),
    ensures
        !step(s).running,
        step(s).fault == Some(RuntimeFault::InvalidRegister),
        step(s).registers == s.registers,
{
}

/// A two-register instruction whose second operand names a register
/// outside the register file stops the machine with `InvalidRegister`.
pub proof fn lemma_second_register_out_of_file_faults(s: VMState)
    requires
        state_wf(s),
        s.pc + 2 < MAX_PROGRAM_SIZE,
        1 <= s.program[s.pc] <= 6,
        valid_register(s.program[s.pc + 1]),
        !valid_register(s.program[s.pc + 2]),
    ensures
        !step(s).running,
        step(s).fault == Some(RuntimeFault::InvalidRegister),
        step(s).registers == s.registers,
{
}

impl VM {
    /// The image and register file have their fixed sizes.
    pub open spec fn wf(&self) -> bool {
        &&& self.registers@.len() == NUM_REGISTERS
        &&& self.program@.len() == MAX_PROGRAM_SIZE
        &&& self.pc <= MAX_PROGRAM_SIZE
        &&& self.instruction_count <= MAX_STEPS
    }

    pub fn new() -> (r: Self)
        ensures
            r.wf(),
            r.pc == 0,
            r.running,
            r.instruction_count == 0,
            r.fault is None,
            r.output@.len() == 0,
            forall|i: int| 0 <= i < NUM_REGISTERS ==> r.registers@[i] == 0,
            forall|i: int| 0 <= i < MAX_PROGRAM_SIZE ==> r.program@[i] == 0,
    {
        VM {
            registers: vec![0i32; NUM_REGISTERS],
            pc: 0,
            program: vec![0i32; MAX_PROGRAM_SIZE],
            running: true,
            instruction_count: 0,
            output: Vec::new(),
            fault: None,
        }
    }

    /// Copies `prog` to the start of the image. A program longer than the
    /// image stops the machine with `ProgramTooLarge` and loads nothing.
    pub fn load_program(&mut self, prog: &[i32])
        requires
            old(self).wf(),
        ensures
            final(self).wf(),
            prog@.len() > MAX_PROGRAM_SIZE ==> final(self)@ == halt_with(
                old(self)@,
                RuntimeFault::ProgramTooLarge,
            ),
            prog@.len() <= MAX_PROGRAM_SIZE ==> final(self)@ == (VMState {
                program: prog@ + old(self)@.program.skip(prog@.len() as int),
                ..old(self)@
            }),
    {
        if prog.len() > MAX_PROGRAM_SIZE {
            self.running = false;
            self.fault = Some(RuntimeFault::ProgramTooLarge);
            return;
        }
        let ghost before = self.program@;
        let mut i: usize = 0;
        while i < prog.len()
            invariant
                0 <= i <= prog@.len() <= MAX_PROGRAM_SIZE,
                self.program@.len() == MAX_PROGRAM_SIZE,
                before.len() == MAX_PROGRAM_SIZE,
                self.program@ =~= prog@.take(i as int) + before.skip(i as int),
                self.registers == old(self).registers,
                self.pc == old(self).pc,
                self.running == old(self).running,
                self.instruction_count == old(self).instruction_count,
                self.output == old(self).output,
                self.fault == old(self).fault,
            decreases prog@.len() - i,
        {
            self.program[i] = prog[i];
            i = i + 1;
            assert(self.program@ =~= prog@.take(i as int) + before.skip(i as int));
        }
        assert(prog@.take(i as int) =~= prog@);
    }

    /// Reads the word at the program counter as an immediate operand.
    pub fn get_immediate(&mut self) -> (r: Option<i32>)
        requires
            old(self).wf(),
        ensures
            final(self).wf(),
            read_immediate(old(self)@) == (final(self)@, r),
    {
        if self.pc >= MAX_PROGRAM_SIZE {
            self.running = false;
            self.fault = Some(RuntimeFault::ProgramCounterOutOfBounds);
            return None;
        }
        let value = self.program[self.pc];
        self.pc = self.pc + 1;
        Some(value)
    }

    /// Reads a register operand; an index outside the register file stops
    /// the machine with `InvalidRegister`.
    pub fn get_register(&mut self) -> (r: Option<usize>)
        requires
            old(self).wf(),
        ensures
            final(self).wf(),
            read_register(old(self)@) == (final(self)@, match r {
                Some(i) => Some(i as int),
                None => None::<int>,
            }),
            r matches Some(i) ==> i < NUM_REGISTERS,
    {
        match self.get_immediate() {
            None => None,
            Some(w) => {
                if w >= 0 && w < NUM_REGISTERS as i32 {
                    Some(w as usize)
                } else {
                    self.running = false;
                    self.fault = Some(RuntimeFault::InvalidRegister);
                    None
                }
            },
        }
    }

    fn fetch(&self) -> (r: i32)
        requires
            self.wf(),
            self.pc < MAX_PROGRAM_SIZE,
        ensures
            r == self.program@[self.pc as int],
    {
        self.program[self.pc]
    }

    /// One fetch-decode-execute cycle.
    pub fn execute(&mut self)
        requires
            old(self).wf(),
            old(self).instruction_count < MAX_STEPS,
        ensures
            final(self).wf(),
            final(self)@ == step(old(self)@),
    {
        if self.pc >= MAX_PROGRAM_SIZE {
            self.running = false;
            self.fault = Some(RuntimeFault::ProgramCounterOutOfBounds);
            return;
        }
        let instruction = match InstructionSet::from_i32(self.fetch()) {
            Some(i) => i,
            None => {
                self.running = false;
                self.fault = Some(RuntimeFault::UnknownOpcode);
                return;
            },
        };
        self.pc = self.pc + 1;
        self.instruction_count = self.instruction_count + 1;
        execute_instruction(self, instruction);
    }

    /// Runs until the machine halts, faults, or has executed `MAX_STEPS`
    /// instructions. The result is the fault that stopped it, if any.
    pub fn run(&mut self) -> (r: Result<(), RuntimeFault>)
        requires
            old(self).wf(),
        ensures
            final(self).wf(),
            final(self)@ == run_spec(old(self)@),
            !final(self).running,
            r == match final(self).fault {
                Some(f) => Err::<(), RuntimeFault>(f),
                None => Ok(()),
            },
    {
        let ghost start = self@;
        while self.running && self.instruction_count < MAX_STEPS
            invariant
                self.wf(),
                run_spec(self@) == run_spec(start),
            decreases run_measure(self@),
        {
            self.execute();
        }
        if self.running {
            self.running = false;
            self.fault = Some(RuntimeFault::StepLimitExceeded);
        }
        match self.fault {
            Some(f) => Err(f),
            None => Ok(()),
        }
    }
}

} // verus!
