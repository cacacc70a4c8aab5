//! A small stack-machine toolchain: an instruction model with a fixed
//! byte encoding, a two-pass assembler, a binary container and an
//! interpreter.
pub mod instruction;
pub mod debug_info;
pub mod binary;
pub mod stack_machine;
pub mod text;
pub mod assembler;
pub mod assembler_laws;
