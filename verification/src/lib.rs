//! An expression notation detector, converter, and evaluator.
//!
//! Given one free-form arithmetic statement, the library decides whether it
//! is written in prefix, postfix, or infix notation, normalizes it to
//! postfix form, and evaluates it to an exact rational result.

pub mod errors;
pub mod laws;
pub mod notation;
pub mod parser;
pub mod table;
pub mod value;

use vstd::prelude::*;

use crate::errors::MathError;
use crate::notation::SolveResult;
use crate::notation::solve_matches;
use crate::notation::spec_solve;
use crate::table::OperatorTable;
use crate::table::spec_default_entries;

verus! {

/// Solves one arithmetic statement with the default operator table:
/// detects its notation, normalizes it to postfix form, and evaluates it.
pub fn solve(statement: &String) -> (r: Result<SolveResult, MathError>)
    ensures
        solve_matches(r, spec_solve(statement@, spec_default_entries()), statement@),
{
    let table: OperatorTable = OperatorTable::new();
    notation::solve(statement, &table)
}

} // verus!
