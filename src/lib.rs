use vstd::prelude::*;

/// The errors that executing bytecode can end in.
pub mod error;
/// A small interpreter with named variables and closures without captures.
pub mod eval;
/// Function closures.
pub mod function;
/// Heap objects and the handles they hold.
pub mod object;
/// The object pool and its mark-and-compact collector.
pub mod pool;
/// Reachability between pool objects, and what compaction keeps.
pub mod reach;
/// Decimal text of integers.
pub mod text;
/// Execution contexts: operand stack, frames, calling convention.
pub mod thread;
/// Splitting source text into tokens.
pub mod token;
/// Machine values.
pub mod value;
/// The instruction set and the dispatch loop.
pub mod vm;

verus! {

} // verus!
