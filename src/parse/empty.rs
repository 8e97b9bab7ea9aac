//! Parse SAT formulae.

use crate::cnf::Formula;
use crate::dimacs;
use crate::dimacs::{lines, outcome, result_is};
use crate::theory::empty::EmptyTheory;
use vstd::prelude::*;

verus! {

/// Parse a DIMACS formula, to be solved with the empty theory.
pub fn from_string(input: String) -> (r: Result<(EmptyTheory, Formula), dimacs::ParseError>)
    ensures
        match r {
            Ok((_, f)) => result_is(Ok(f), outcome(lines(input@), 0)),
            Err(e) => result_is(Err(e), outcome(lines(input@), 0)),
        },
{
    match dimacs::from_string(input) {
        Ok(f) => Ok((EmptyTheory::new(), f)),
        Err(e) => Err(e),
    }
}

} // verus!
