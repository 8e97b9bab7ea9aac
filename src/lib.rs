//! A small SMT solver: DPLL search with pluggable background theories.

pub mod cnf;
pub mod dimacs;
pub mod dpll;
pub mod parse;
pub mod theory;

use crate::cnf::{Formula, Literal};
use crate::dpll::{
    agrees, clause_holds, clause_sat, consistent, covers, dpll, formula_sat, has_atom, lit_sat,
    satisfiable, satisfied_by,
};

verus! {

/// No atom occurs twice among the literals, and each is an atom of the
/// formula.
pub open spec fn atoms_once_from(f: Formula, v: Seq<Literal>) -> bool {
    &&& forall|i: int, j: int| 0 <= i < v.len() && 0 <= j < v.len() && i != j ==> (#[trigger] v[i]).id() != (#[trigger] v[j]).id()
    &&& forall|i: int| 0 <= i < v.len() ==> has_atom(f, (#[trigger] v[i]).id())
}

} // verus!

use crate::theory::empty::EmptyTheory;
use crate::theory::Theory;
use vstd::prelude::*;

verus! {

/// A consistent set of literals that meets every clause gives a total
/// assignment that satisfies the formula.
pub proof fn lemma_model_satisfies(f: Formula, t: Seq<Literal>)
    requires
        f.wf(),
        satisfied_by(f, t),
        consistent(t),
    ensures
        satisfiable(f),
{
    let a = |x: int| t.contains(Literal(x as isize));
    assert forall|i: int| 0 <= i < f.0@.len() implies clause_sat(a, #[trigger] f.0@[i]) by {
        assert(clause_holds(f.0@[i], t));
        let j = choose|j: int| 0 <= j < f.0@[i].0@.len() && t.contains(#[trigger] f.0@[i].0@[j]);
        let l = f.0@[i].0@[j];
        assert(f.0@[i].wf());
        if l.0 < 0 {
            assert(Literal((-l.0) as isize) == l.neg());
        } else {
            assert(Literal(l.0 as isize) == l);
        }
        assert(lit_sat(a, l));
    }
    assert(formula_sat(a, f));
}

/// Decide whether a formula is satisfiable.
pub fn sat(formula: Formula) -> (r: bool)
    requires
        formula.wf(),
    ensures
        r == satisfiable(formula),
{
    smt(&mut EmptyTheory::new(), formula)
}

/// Find an assignment satisfying a formula, if there is one.
pub fn sat_assignment(formula: Formula) -> (r: Option<Vec<Literal>>)
    requires
        formula.wf(),
    ensures
        r is Some == satisfiable(formula),
        r matches Some(v) ==> satisfied_by(formula, v@) && consistent(v@) && atoms_once_from(formula, v@),
{
    smt_assignment(&mut EmptyTheory::new(), formula)
}

/// Decide whether a formula is satisfiable modulo a theory.
pub fn smt<T: Theory>(theory: &mut T, formula: Formula) -> (r: bool)
    requires
        old(theory).wf(),
        formula.wf(),
        forall|x: int| has_atom(formula, x) ==> old(theory).knows_atom(x),
    ensures
        final(theory).wf(),
        r ==> satisfiable(formula) && final(theory).consistent(),
        old(theory).silent() ==> r == satisfiable(formula),
        old(theory).asserted().len() == 0 ==> (r ==> exists|v: Seq<Literal>|
            satisfied_by(formula, v) && consistent(v) && #[trigger] old(theory).accepts(v)),
        old(theory).asserted().len() == 0 && !r ==> forall|a: spec_fn(int) -> bool, w: Seq<Literal>|
            #![trigger old(theory).accepts(w), formula_sat(a, formula)]
            formula_sat(a, formula) && agrees(w, a) && covers(w, formula) ==> !old(theory).accepts(w),
{
    let ghost f = formula;
    match dpll(theory, formula) {
        Some(m) => {
            proof {
                lemma_model_satisfies(f, m.lits());
                if old(theory).asserted().len() == 0 {
                    assert(old(theory).accepts(m.lits()));
                }
            }
            true
        },
        None => false,
    }
}

/// Find an assignment satisfying a formula modulo a theory, if there is one.
pub fn smt_assignment<T: Theory>(theory: &mut T, formula: Formula) -> (r: Option<Vec<Literal>>)
    requires
        old(theory).wf(),
        formula.wf(),
        forall|x: int| has_atom(formula, x) ==> old(theory).knows_atom(x),
    ensures
        final(theory).wf(),
        r matches Some(v) ==> satisfied_by(formula, v@) && consistent(v@) && final(theory).consistent()
            && atoms_once_from(formula, v@),
        old(theory).asserted().len() == 0 ==> (r matches Some(v) ==> final(theory).asserted() == v@),
        old(theory).asserted().len() == 0 ==> (r matches Some(v) ==> old(theory).accepts(v@)),
        old(theory).asserted().len() == 0 && r is None ==> forall|a: spec_fn(int) -> bool, w: Seq<Literal>|
            #![trigger old(theory).accepts(w), formula_sat(a, formula)]
            formula_sat(a, formula) && agrees(w, a) && covers(w, formula) ==> !old(theory).accepts(w),
        formula.0@.len() == 0 && old(theory).consistent() ==> (r matches Some(v) && v@.len() == 0),
        old(theory).silent() ==> (r is Some == satisfiable(formula)),
{
    let ghost f = formula;
    match dpll(theory, formula) {
        Some(m) => {
            proof {
                lemma_model_satisfies(f, m.lits());
                assert forall|i: int, j: int|
                    0 <= i < m.lits().len() && 0 <= j < m.lits().len() && i != j implies (#[trigger] m.lits()[i]).id()
                    != (#[trigger] m.lits()[j]).id() by {
                    assert(m.lits()[i] == m@[i].0 && m.lits()[j] == m@[j].0);
                }
                assert forall|i: int| 0 <= i < m.lits().len() implies has_atom(f, (#[trigger] m.lits()[i]).id()) by {
                    assert(m.lits()[i] == m@[i].0);
                }
            }
            Some(m.get_assignments())
        },
        None => None,
    }
}

} // verus!
