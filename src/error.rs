use vstd::prelude::*;

verus! {

/// The ways in which executing an instruction stream can fail.
///
/// None of these is a user error: each one means that the producer of the
/// bytecode broke the engine's contract.
#[derive(Clone, Copy, Debug, PartialEq, Eq, Structural)]
pub enum Error {
    /// A value of one kind was used where another kind was required.
    TypeMismatch,
    /// A function was called with a number of arguments other than its arity.
    ArityMismatch,
    /// A pop, or the layout of a call or a return, reached below the stack.
    StackUnderflow,
    /// A local index lies outside the operand stack of the current frame.
    InvalidLocal,
    /// A name was loaded that the current frame never stored.
    UnboundName,
    /// The program counter left the instruction stream.
    InvalidAddress,
    /// A handle names no object of the pool.
    InvalidHandle,
    /// Integer arithmetic left the range of `i64`.
    Overflow,
    /// The step budget ran out before the outermost frame returned.
    OutOfSteps,
}

} // verus!
