//! The outcome of one attempt to evaluate an identity on a row.
//!
//! An attempt that lacks information is no failure: it reports what it found
//! and why it could not finish. Only a contradiction is an error.

use vstd::prelude::*;

verus! {

/// Why an attempt could not finish.
#[derive(Clone, Copy, Debug, PartialEq, Eq, Structural)]
pub enum IncompleteCause {
    /// Two expressions with open cells are multiplied.
    NonLinear,
    /// Several cells are open, or the coefficient of the open cell has no inverse.
    MultipleUnknowns,
    /// The selector of a lookup reads an open cell.
    UnknownSelector,
    /// Several rows of the table match, with different values.
    MultipleLookupMatches,
    /// The right-hand side of the lookup reads cells that are open.
    NoLookupMachine,
    /// The query callback had no answer.
    NoQueryAnswer,
    /// The query reads an open cell.
    UnknownQueryArgument,
}

/// A witness cell of the row that is being solved, or of the row after it.
#[derive(Clone, Copy, Debug, PartialEq, Eq, Structural)]
pub struct Cell {
    pub column: usize,
    pub next: bool,
}

/// What is required of a cell.
#[derive(Clone, Copy, Debug, PartialEq, Eq, Structural)]
pub enum Constraint {
    /// The cell has this value.
    Assignment(u64),
}

pub type Constraints = Vec<(Cell, Constraint)>;

#[derive(Clone, Copy, Debug, PartialEq, Eq, Structural)]
pub enum EvalStatus {
    /// Everything that the identity says of the row has been found.
    Complete,
    /// More could be found once more cells are known.
    Incomplete(IncompleteCause),
}

/// What an attempt found.
#[derive(Debug)]
pub struct EvalValue {
    pub constraints: Constraints,
    pub status: EvalStatus,
}

/// Why witness generation failed on a row.
#[derive(Clone, Copy, Debug, PartialEq, Eq, Structural)]
pub enum EvalError {
    /// The known cells contradict the identity on the row.
    ConstraintUnsatisfiable { row: usize, identity: usize },
    /// The cell stayed open: nothing determines it.
    Stuck { row: usize, column: usize },
    /// The identity reads a cell that stayed open.
    Unresolved { row: usize, identity: usize },
    /// The value of the cell is outside the range that the identities allow the column.
    RangeConstraintViolated { row: usize, column: usize },
}

pub type EvalResult = Result<EvalValue, EvalError>;

impl EvalValue {
    /// Nothing found, and nothing more to find.
    pub fn complete(constraints: Constraints) -> (r: EvalValue)
        ensures
            r.constraints == constraints,
            r.status == EvalStatus::Complete,
    {
        EvalValue { constraints, status: EvalStatus::Complete }
    }

    pub fn incomplete(constraints: Constraints, cause: IncompleteCause) -> (r: EvalValue)
        ensures
            r.constraints == constraints,
            r.status == EvalStatus::Incomplete(cause),
    {
        EvalValue { constraints, status: EvalStatus::Incomplete(cause) }
    }

    pub fn is_complete(&self) -> (r: bool)
        ensures
            r == (self.status == EvalStatus::Complete),
    {
        match self.status {
            EvalStatus::Complete => true,
            EvalStatus::Incomplete(_) => false,
        }
    }
}

} // verus!
