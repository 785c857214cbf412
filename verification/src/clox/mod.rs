//! Pieces of an interpreter for the Lox language: tokens, the scanner that
//! makes them, the table of parse rules with their precedences, a parser's
//! error state, upvalues, and the bytecode's instructions.
use vstd::prelude::*;

pub mod op;
pub mod parser;
pub mod precedence;
pub mod scanner;
pub mod token;
pub mod upvalue;

verus! {

/// How running a program ended.
#[derive(PartialEq, Eq)]
pub enum InterpretResult {
    /// The program ran to its end.
    Success,
    CompileError,
    RuntimeError,
    NativeFunctionError(String),
}

} // verus!
