//! A small language front end and execution engine: parenthesized source
//! text is read into a tree, compiled into a compact byte-oriented
//! instruction stream, and executed by a stack machine.
//!
//! The trees and the runtime list value share one persistent, structurally
//! shared linked list, assembled by prepending; a finished form therefore
//! carries its operator as the structurally last element and its arguments
//! in reverse source order, an ordering contract the compiler is built
//! around.  The instruction stream's meaning is a small-step transition
//! function over a ghost machine state, and the machine is proved to return
//! exactly what iterating that function yields.

pub mod ast;
pub mod bytecode;
pub mod chunk;
pub mod evaluator;
pub mod reader;
pub mod vm;
