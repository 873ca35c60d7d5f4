//! An interpreter core for a tiny two-stack language written in sixteen
//! ASCII symbols: a tokenizer, a macro and label expander, a packer for the
//! two-opcodes-per-byte form, and a step-wise virtual machine.

pub mod alphabet;
pub mod lexer;
pub mod labels;
pub mod expander;
pub mod packer;
pub mod vm;
