//! A small compiler and register machine: an indentation-sensitive source
//! language is tokenized, parsed and lowered to assembly text, which is
//! assembled into a flat word image and executed on a fixed-size machine.
pub mod compiler;
pub mod text;
pub mod vm;
