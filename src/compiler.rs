//! The front end: tokenizer, parser and code generator.
pub mod codegen;
pub mod lexer;
pub mod parser;

use vstd::prelude::*;
use crate::compiler::codegen::{gen_program, CodeGenerator, CodegenError};
use crate::compiler::lexer::{lex, LexError, Lexer};
use crate::compiler::parser::{program_spec, Parser};

verus! {

/// Why source text could not be compiled.
#[derive(Debug, Clone, Copy, PartialEq, Eq, Structural)]
pub enum CompileError {
    Lex(LexError),
    Codegen(CodegenError),
}

/// The assembly text of source text `src`.
pub open spec fn compile_spec(src: Seq<char>) -> Result<Seq<char>, CompileError> {
    match lex(src) {
        Err(e) => Err(CompileError::Lex(e)),
        Ok(tokens) => match gen_program(program_spec(tokens, 0)) {
            Err(e) => Err(CompileError::Codegen(e)),
            Ok(text) => Ok(text),
        },
    }
}

/// Tokenizes, parses and lowers `source` to assembly text.
pub fn compile(source: &str) -> (r: Result<String, CompileError>)
    ensures
        match compile_spec(source@) {
            Ok(text) => r is Ok && r->Ok_0@ == text,
            Err(e) => r == Err::<String, CompileError>(e),
        },
{
    let mut lexer = Lexer::new(source);
    let tokens = match lexer.tokenize() {
        Ok(tokens) => tokens,
        Err(e) => return Err(CompileError::Lex(e)),
    };
    let mut parser = Parser::new(tokens);
    let ast = parser.parse();
    let mut codegen = CodeGenerator::new();
    match codegen.generate(ast.as_slice()) {
        Ok(text) => Ok(text),
        Err(e) => Err(CompileError::Codegen(e)),
    }
}

} // verus!
