//! The register machine: instruction encoding, assembler and interpreter.
pub mod assembler;
pub mod executor;
pub mod instruction;
pub mod machine;
