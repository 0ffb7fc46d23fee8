//! A small register virtual machine that runs a compact byte encoding with
//! direct call threading, bounded by an unwinding trampoline.
pub mod bytecode;
pub mod internal_instruction;
pub mod convert;
pub mod semantics;
pub mod engine;
pub mod counting;
