use vstd::prelude::*;

verus! {

/// Why a task could not be set up or solved.
#[derive(Debug, Clone, Copy, PartialEq, Eq, Structural)]
pub enum SimplexMethodError {
    /// No pivot row exists: the objective is unbounded in the improving direction.
    NoLimit,
    /// No pivot column exists; under the two-phase method, the first phase
    /// ended with the artificial columns above zero, so no point is feasible.
    NoSolutions,
    /// The task has no restrictions, or its restrictions name no variable.
    EmptyProblem,
    /// The task's variable indices cannot lay out a tableau (index zero, an
    /// objective variable that no restriction names, or a size out of range).
    ShapeMismatch,
    /// No row of the tableau has a unit column with a zero objective entry to start from.
    NoInitialBasis,
    /// An exact fraction left the range of 64-bit integers.
    Overflow,
    /// The pivot loop ran for `usize::MAX` steps without reaching the optimum.
    IterationLimit,
}

/// Why the text of a task could not be read.
#[derive(Debug)]
pub enum SimplexParseErr {
    UnexpectedRelation,
    EndOfInput,
    NotANumber,
    NoTarget,
    Composite(Box<SimplexParseErr>, Box<SimplexParseErr>),
}

} // verus!
