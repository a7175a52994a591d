use vstd::prelude::*;

verus! {

/// The machine's operations. The numbering given by `opcode` is the image
/// format and is stable.
#[derive(Debug, Clone, Copy, PartialEq, Eq, Structural)]
pub enum InstructionSet {
    /// `LOAD_CONST <reg> <value>`
    LoadConst,
    /// `MOV <dest_reg> <src_reg>`
    Mov,
    /// `ADD <reg1> <reg2>`
    Add,
    /// `SUB <reg1> <reg2>`
    Sub,
    /// `MUL <reg1> <reg2>`
    Mul,
    /// `MOD <reg1> <reg2>`
    Mod,
    /// `DIV <reg1> <reg2>`
    Div,
    /// `PRINT_REG <reg>`
    PrintReg,
    /// `HALT`
    Halt,
    /// `JMP <addr>`
    Jump,
    /// `JMP_IF_NOT_ZERO <reg> <addr>`
    JumpIfNotZero,
}

/// The word that encodes an operation.
pub open spec fn spec_opcode(i: InstructionSet) -> i32 {
    match i {
        InstructionSet::LoadConst => 0,
        InstructionSet::Mov => 1,
        InstructionSet::Add => 2,
        InstructionSet::Sub => 3,
        InstructionSet::Mul => 4,
        InstructionSet::Mod => 5,
        InstructionSet::Div => 6,
        InstructionSet::PrintReg => 7,
        InstructionSet::Halt => 8,
        InstructionSet::Jump => 9,
        InstructionSet::JumpIfNotZero => 10,
    }
}

/// The operation a word decodes to, if any.
pub open spec fn spec_decode(v: i32) -> Option<InstructionSet> {
    if v == 0 {
        Some(InstructionSet::LoadConst)
    } else if v == 1 {
        Some(InstructionSet::Mov)
    } else if v == 2 {
        Some(InstructionSet::Add)
    } else if v == 3 {
        Some(InstructionSet::Sub)
    } else if v == 4 {
        Some(InstructionSet::Mul)
    } else if v == 5 {
        Some(InstructionSet::Mod)
    } else if v == 6 {
        Some(InstructionSet::Div)
    } else if v == 7 {
        Some(InstructionSet::PrintReg)
    } else if v == 8 {
        Some(InstructionSet::Halt)
    } else if v == 9 {
        Some(InstructionSet::Jump)
    } else if v == 10 {
        Some(InstructionSet::JumpIfNotZero)
    } else {
        None
    }
}

/// Number of words an instruction occupies: the opcode and its operands.
pub open spec fn spec_width(i: InstructionSet) -> nat {
    match i {
        InstructionSet::Halt => 1,
        InstructionSet::PrintReg | InstructionSet::Jump => 2,
        _ => 3,
    }
}

/// Decoding inverts encoding.
pub proof fn lemma_decode_opcode(i: InstructionSet)
    ensures
        spec_decode(spec_opcode(i)) == Some(i),
{
}

impl InstructionSet {
    pub fn from_i32(value: i32) -> (r: Option<Self>)
        ensures
            r == spec_decode(value),
    {
        match value {
            0 => Some(InstructionSet::LoadConst),
            1 => Some(InstructionSet::Mov),
            2 => Some(InstructionSet::Add),
            3 => Some(InstructionSet::Sub),
            4 => Some(InstructionSet::Mul),
            5 => Some(InstructionSet::Mod),
            6 => Some(InstructionSet::Div),
            7 => Some(InstructionSet::PrintReg),
            8 => Some(InstructionSet::Halt),
            9 => Some(InstructionSet::Jump),
            10 => Some(InstructionSet::JumpIfNotZero),
            _ => None,
        }
    }

    pub fn opcode(self) -> (r: i32)
        ensures
            r == spec_opcode(self),
    {
        match self {
            InstructionSet::LoadConst => 0,
            InstructionSet::Mov => 1,
            InstructionSet::Add => 2,
            InstructionSet::Sub => 3,
            InstructionSet::Mul => 4,
            InstructionSet::Mod => 5,
            InstructionSet::Div => 6,
            InstructionSet::PrintReg => 7,
            InstructionSet::Halt => 8,
            InstructionSet::Jump => 9,
            InstructionSet::JumpIfNotZero => 10,
        }
    }
}

} // verus!
