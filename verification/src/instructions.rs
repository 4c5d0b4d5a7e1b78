//! The instruction set and the error and outcome types shared by the
//! loader and the execution engine.

use vstd::prelude::*;

verus! {

/// One resolved instruction.
///
/// The two jump variants carry the index of their partner bracket in the
/// instruction sequence: a `JumpIfZero` produced for `[` points at the
/// matching `]`'s `JumpIfNonZero`, and vice versa.  The engine adds one
/// after every instruction, including a taken jump, so execution resumes
/// just past the partner bracket.
#[derive(Clone, Copy, Debug, PartialEq, Eq, Structural)]
pub enum Instruction {
    MoveRight,
    MoveLeft,
    Increment,
    Decrement,
    OutputByte,
    InputByte,
    JumpIfZero(usize),
    JumpIfNonZero(usize),
}

/// A malformed program: bracket balance failed at load time.
#[derive(Clone, Copy, Debug, PartialEq, Eq, Structural)]
pub enum StructuralError {
    /// A `[` was never closed.
    UnmatchedOpeningBracket,
    /// A `]` had no corresponding `[`.
    UnmatchedClosingBracket,
}

/// The tape pointer moved outside `[0, tape_size)`; the run is over.
#[derive(Clone, Copy, Debug, PartialEq, Eq, Structural)]
pub struct OutOfRangeError;

/// What one engine step did.
#[derive(Clone, Copy, Debug, PartialEq, Eq, Structural)]
pub enum StepOutcome {
    /// An instruction ran with no observable effect outside the machine.
    Ran,
    /// An `OutputByte` instruction emitted this byte.
    Output(u8),
    /// The instruction pointer is past the end of the program.
    Halted,
    /// The step would have moved the tape pointer off the tape, or the
    /// tape is empty and an instruction needed the current cell.
    OutOfRange,
}

/// How a bounded run ended.
#[derive(Debug, PartialEq, Eq)]
pub enum RunOutcome {
    /// The program ran to completion; these are its output bytes in order.
    Halted(Vec<u8>),
    /// The tape pointer left the tape; the run stopped at once.
    Failed(OutOfRangeError),
    /// The step budget ran out before the program completed.
    Exhausted,
}

} // verus!
