//! An assembler and execution engine for the Little Man Computer: a decimal
//! machine with one accumulator, a hundred words of memory and twelve
//! instructions.
pub mod assembler;
pub mod instruction;
pub mod machine;
pub mod source;
pub mod text;

pub use assembler::assemble;
pub use instruction::{Instruction, Label, Operand, Program};
pub use machine::{run, ExecutionState, Output, ScriptedIO, LMCIO};
pub use source::{parse, parse_line};
