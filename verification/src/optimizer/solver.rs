//! The solver's front: what becomes of the arithmetic's answer.

use crate::optimizer::linear_system::LinearSystem;
use crate::optimizer::Numerics;
use vstd::prelude::*;

verus! {

/// Why a linear system has no solution.
#[derive(Debug, Clone, Copy, PartialEq, Eq, Structural)]
pub enum SolverError {
    /// The system's matrix is not positive definite.
    NotPositiveDefinite,
    /// The solution has not as many scalars as the system has rows.
    DimensionMismatch,
}

impl SolverError {
    /// The reason in words.
    pub fn message(&self) -> (text: String)
        ensures
            text@ == match *self {
                SolverError::NotPositiveDefinite => "H is not positive-definite"@,
                SolverError::DimensionMismatch => "H and b have incompatible dimensions"@,
            },
    {
        match self {
            SolverError::NotPositiveDefinite => String::from_str("H is not positive-definite"),
            SolverError::DimensionMismatch => String::from_str(
                "H and b have incompatible dimensions",
            ),
        }
    }
}

/// What becomes of the arithmetic's answer for a system of `dim` rows: the solution, if
/// there is one and it has `dim` scalars.
pub open spec fn checked(dim: usize, answer: Option<Vec<u64>>) -> Result<Vec<u64>, SolverError> {
    match answer {
        None => Err(SolverError::NotPositiveDefinite),
        Some(x) => if x@.len() == dim {
            Ok(x)
        } else {
            Err(SolverError::DimensionMismatch)
        },
    }
}

/// Solves linear systems with a symmetric positive definite matrix by sparse Cholesky
/// factorization. The factorization itself is the arithmetic's.
pub struct SparseCholeskySolver;

impl SparseCholeskySolver {
    /// What the solver makes of the arithmetic's answer for a system of `dim` rows: the
    /// solution, if there is one and it has `dim` scalars.
    pub fn check(dim: usize, answer: Option<Vec<u64>>) -> (solution: Result<Vec<u64>, SolverError>)
        ensures
            solution == checked(dim, answer),
    {
        match answer {
            None => Err(SolverError::NotPositiveDefinite),
            Some(x) => if x.len() == dim {
                Ok(x)
            } else {
                Err(SolverError::DimensionMismatch)
            },
        }
    }

    /// Solves `H x = b`: asks the arithmetic, and makes of its answer what `check` makes
    /// of it. A solution has as many scalars as the system has rows.
    pub fn solve<N: Numerics>(numerics: &N, system: &LinearSystem) -> (solution: Result<
        Vec<u64>,
        SolverError,
    >)
        requires
            system.wf(),
        ensures
            exists|answer: Option<Vec<u64>>|
                #[trigger] call_ensures(N::solve, (numerics, system), answer) && solution
                    == checked(system.dim, answer),
            solution is Ok ==> solution->Ok_0@.len() == system.dim,
    {
        let answer = numerics.solve(system);
        Self::check(system.dim, answer)
    }
}

} // verus!
