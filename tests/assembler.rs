use orus::vm::assembler::{assemble, AsmError};

const SUM_TO_TEN: &str = "LOAD_CONST R0,10\nLOAD_CONST R1,1\nLOAD_CONST R2,0\nloop:\nADD R2,R0\nSUB R0,R1\nJMP_IF_NOT_ZERO R0 loop\nPRINT_REG R2\nHALT";

#[test]
fn encodes_each_instruction() {
    assert_eq!(
        assemble(SUM_TO_TEN),
        Ok(vec![0, 0, 10, 0, 1, 1, 0, 2, 0, 2, 2, 0, 3, 0, 1, 10, 0, 9, 7, 2, 8])
    );
    assert_eq!(
        assemble("MOV R1, R2\nMUL R3, R4\nDIV R5, R6\nMOD R7, R8\nJMP end\nend:\nHALT"),
        Ok(vec![1, 1, 2, 4, 3, 4, 6, 5, 6, 5, 7, 8, 9, 14, 8])
    );
}

#[test]
fn assembling_twice_gives_the_same_words() {
    assert_eq!(assemble(SUM_TO_TEN), assemble(SUM_TO_TEN));
}

#[test]
fn forward_label_resolves_to_its_address() {
    assert_eq!(assemble("JMP skip\nLOAD_CONST R0, 1\nskip:\nHALT"), Ok(vec![9, 5, 0, 0, 1, 8]));
    assert_eq!(
        assemble("LOAD_CONST R0, 1\nJMP_IF_NOT_ZERO R0, done\nPRINT_REG R0\ndone:\nHALT"),
        Ok(vec![0, 0, 1, 10, 0, 8, 7, 0, 8])
    );
}

#[test]
fn comments_and_blank_lines_are_skipped() {
    assert_eq!(assemble("// start\n\n   \n  HALT  \n// end"), Ok(vec![8]));
    assert_eq!(assemble(""), Ok(vec![]));
}

#[test]
fn negative_immediate() {
    assert_eq!(assemble("LOAD_CONST R3, -2147483648"), Ok(vec![0, 3, -2147483648]));
    assert_eq!(assemble("LOAD_CONST R3, 2147483648"), Err(AsmError::MalformedOperand));
}

#[test]
fn unknown_mnemonic_fails() {
    assert_eq!(assemble("HALT\nFOO R1"), Err(AsmError::UnknownInstruction));
    assert_eq!(assemble("halt"), Err(AsmError::UnknownInstruction));
}

#[test]
fn undefined_label_fails() {
    assert_eq!(assemble("JMP nowhere"), Err(AsmError::UndefinedLabel));
}

#[test]
fn malformed_operands_fail() {
    assert_eq!(assemble("LOAD_CONST X1, 5"), Err(AsmError::MalformedOperand));
    assert_eq!(assemble("ADD R1"), Err(AsmError::MalformedOperand));
    assert_eq!(assemble("ADD R1, R2, R3"), Err(AsmError::MalformedOperand));
    assert_eq!(assemble("PRINT_REG R"), Err(AsmError::MalformedOperand));
    assert_eq!(assemble("LOAD_CONST R1, five"), Err(AsmError::MalformedOperand));
}

#[test]
fn register_index_is_not_range_checked_here() {
    assert_eq!(assemble("PRINT_REG R300"), Ok(vec![7, 300]));
}
