//! The empty theory.  Instantiate this to get a SAT solver.

use crate::cnf::{Formula, Literal};
use crate::dimacs;
use crate::dimacs::{lines, outcome, result_is};
use crate::theory::Theory;
use vstd::prelude::*;

verus! {

/// The empty theory keeps no state but the record of what it was told.
pub struct EmptyTheory(Ghost<Seq<Literal>>);

impl EmptyTheory {
    pub fn new() -> (r: EmptyTheory)
        ensures
            r.asserted() == Seq::<Literal>::empty(),
    {
        EmptyTheory(Ghost(Seq::empty()))
    }

    /// Parse a DIMACS formula, to be solved with the empty theory.
    pub fn from_string(input: String) -> (r: Result<(EmptyTheory, Formula), dimacs::ParseError>)
        ensures
            match r {
                Ok((_, f)) => result_is(Ok(f), outcome(lines(input@), 0)),
                Err(e) => result_is(Err(e), outcome(lines(input@), 0)),
            },
    {
        crate::parse::empty::from_string(input)
    }
}

impl Theory for EmptyTheory {
    open spec fn wf(&self) -> bool {
        true
    }

    open spec fn consistent(&self) -> bool {
        true
    }

    open spec fn knows_atom(&self, atom: int) -> bool {
        true
    }

    open spec fn admits(&self, lit: Literal) -> bool {
        true
    }

    open spec fn silent(&self) -> bool {
        true
    }

    open spec fn verdict(&self, lit: Literal) -> Option<bool> {
        None
    }

    open spec fn fresh(&self) -> bool {
        true
    }

    closed spec fn asserted(&self) -> Seq<Literal> {
        self.0@
    }

    open spec fn same_setup(&self, other: &Self) -> bool {
        true
    }

    open spec fn decidable(&self, lit: Literal) -> bool {
        true
    }

    open spec fn accepts(&self, lits: Seq<Literal>) -> bool {
        true
    }

    fn decide(&self, lit: Literal) -> (r: Option<bool>) {
        None
    }

    fn incorporate(&mut self, lit: Literal) {
        self.0 = Ghost(self.0@.push(lit));
    }

    fn forget(&mut self) {
        self.0 = Ghost(Seq::empty());
    }

    fn is_consistent(&self) -> (r: bool) {
        true
    }
}

} // verus!
