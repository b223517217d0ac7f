use vstd::prelude::*;

use crate::preprocessor::SourceLocation;

verus! {

/// An error that occurs when there is an issue with the loop structure.
#[derive(Clone, Copy, Debug, PartialEq, Eq, Structural)]
pub enum LoopError {
    /// An error that occurs when there is a missing opening loop.
    MissingStart,
    /// An error that occurs when there is a missing ending loop.
    MissingEnd,
}

/// An error that occurs during the lexing process containing the position of
/// the error in the source code.
#[derive(Clone, Copy, Debug, PartialEq, Eq, Structural)]
pub struct SyntaxError {
    pub line: u32,
    pub column: u32,
    pub error: LoopError,
}

/// An error that stops a running program. The tape, pointer, and output are
/// left exactly as they stood when execution stopped.
#[derive(Clone, Copy, Debug, PartialEq, Eq, Structural)]
pub enum RuntimeError {
    /// A read instruction found no byte left in the input.
    InputExhausted,
    /// The step budget was used up before the program finished.
    OutOfSteps,
}

impl SyntaxError {
    /// Creates a new syntax error cloned from the given source location and
    /// error.
    pub fn from_source_location(source_location: &SourceLocation, error: LoopError) -> (r: Self)
        ensures
            r == (SyntaxError {
                line: source_location.line,
                column: source_location.column,
                error,
            }),
    {
        Self { line: source_location.line, column: source_location.column, error }
    }
}

} // verus!
