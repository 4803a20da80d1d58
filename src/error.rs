use vstd::prelude::*;

verus! {

/// Why loading or running a program failed.
#[derive(Debug, Clone, Copy, PartialEq, Eq, Structural)]
pub enum BfError {
    /// The program text holds a character that is not a symbol of the language.
    InvalidProgram { invalid_char: char },
    /// A backward jump found no matching open marker.
    RuntimeError,
    /// A read instruction ran with no input left.
    NoInput,
    /// The close marker at this instruction index has no open marker before it.
    InvalidProgramBrackets { unmatched: usize },
    /// The run reached its step budget before the program halted.
    StepLimit,
}

} // verus!
