use orus::compiler::codegen::{CodeGenerator, CodegenError};
use orus::compiler::parser::ASTNode;
use orus::compiler::{compile, CompileError};

#[test]
fn declaration_and_print_text() {
    assert_eq!(
        compile("mut sum = 5\nprint sum"),
        Ok("LOAD_CONST R0, 5\nMOV R1, R0\nPRINT_REG R1\n".to_string())
    );
}

#[test]
fn binary_op_accumulates_in_left_register() {
    assert_eq!(
        compile("x = 2 * 3\nprint x"),
        Ok("LOAD_CONST R0, 2\nLOAD_CONST R1, 3\nMUL R0, R1\nMOV R2, R0\nPRINT_REG R2\n".to_string())
    );
}

#[test]
fn reassignment_moves_into_bound_register() {
    assert_eq!(
        compile("mut a = 1\na = 2"),
        Ok("LOAD_CONST R0, 1\nLOAD_CONST R1, 2\nMOV R0, R1\n".to_string())
    );
}

#[test]
fn loop_text() {
    let text = compile("for i in 0..2:\n    print i").unwrap();
    assert_eq!(
        text,
        "LOAD_CONST R0, 0\nLOAD_CONST R1, 2\nMOV R2, R0\nlabel_0:\nMOV R3, R1\nSUB R3, R2\n\
         JMP_IF_NOT_ZERO R3, label_1\nJMP label_2\nlabel_1:\nMOV R4, R2\nPRINT_REG R4\n\
         LOAD_CONST R3, 1\nADD R2, R3\nJMP label_0\nlabel_2:\n"
    );
}

#[test]
fn inclusive_loop_raises_end_by_one() {
    let text = compile("for i in 0..=2:\n    print i").unwrap();
    assert!(text.starts_with(
        "LOAD_CONST R0, 0\nLOAD_CONST R1, 2\nMOV R2, R0\nLOAD_CONST R3, 1\nADD R1, R3\nlabel_0:\n"
    ));
}

#[test]
fn undefined_variable_fails() {
    assert_eq!(compile("print x"), Err(CompileError::Codegen(CodegenError::UndefinedVariable)));
}

#[test]
fn loop_variable_ends_with_loop() {
    assert_eq!(
        compile("for i in 0..2:\n    print i\nprint i"),
        Err(CompileError::Codegen(CodegenError::UndefinedVariable))
    );
}

#[test]
fn unsupported_operator_fails() {
    let ast = vec![ASTNode::Print(vec![ASTNode::BinaryOp {
        op: "%".to_string(),
        left: Box::new(ASTNode::Number(1)),
        right: Box::new(ASTNode::Number(2)),
    }])];
    assert_eq!(CodeGenerator::new().generate(&ast), Err(CodegenError::UnsupportedOperator));
}

#[test]
fn statement_inside_expression_fails() {
    let ast = vec![ASTNode::Print(vec![ASTNode::VariableDeclaration {
        mutable: true,
        name: "x".to_string(),
        value: None,
    }])];
    assert_eq!(CodeGenerator::new().generate(&ast), Err(CodegenError::UnsupportedNode));
}

#[test]
fn running_out_of_registers_fails() {
    let src = "print 1\n".repeat(300);
    assert_eq!(compile(&src), Err(CompileError::Codegen(CodegenError::OutOfRegisters)));
    let fits = "print 1\n".repeat(256);
    assert!(compile(&fits).is_ok());
}

#[test]
fn negative_constant_is_written_with_sign() {
    let ast = vec![ASTNode::Print(vec![ASTNode::Number(-12)])];
    assert_eq!(CodeGenerator::new().generate(&ast), Ok("LOAD_CONST R0, -12\nPRINT_REG R0\n".to_string()));
}
