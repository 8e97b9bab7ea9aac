//! Background theories consulted by the search loop.

pub mod empty;
pub mod euf;

use crate::cnf::Literal;
use vstd::prelude::*;

verus! {

/// Every literal of `s` is in `m`.
pub open spec fn includes(m: Seq<Literal>, s: Seq<Literal>) -> bool {
    forall|x: Literal| #[trigger] s.contains(x) ==> m.contains(x)
}

/// A trait for theories, allowing you to implement your own.  See the
/// submodules for the theories this solver comes with.
///
/// The spec functions describe what the search loop may rely on:
/// `knows_atom` says which atoms the theory has a meaning for, `admits`
/// which literals may be asserted at all, and `silent` marks a theory
/// that never decides anything (which makes the search a plain SAT
/// search).  None of the three changes as literals are asserted or
/// forgotten.
pub trait Theory {
    /// The internal invariant of the theory's state.
    spec fn wf(&self) -> bool;

    /// The literals asserted so far do not contradict one another.
    spec fn consistent(&self) -> bool;

    /// The theory has a meaning for this atom.
    spec fn knows_atom(&self, atom: int) -> bool;

    /// This literal can be asserted into the theory.
    spec fn admits(&self, lit: Literal) -> bool;

    /// The theory never decides a literal.
    spec fn silent(&self) -> bool;

    /// What the theory says of a literal in its current state.
    spec fn verdict(&self, lit: Literal) -> Option<bool>;

    /// No literal has been asserted since the theory was built or reset.
    spec fn fresh(&self) -> bool;

    /// The literals asserted since the theory was built or reset, in order.
    spec fn asserted(&self) -> Seq<Literal>;

    /// Both states give the atoms the same meaning: only what was asserted
    /// may differ.
    spec fn same_setup(&self, other: &Self) -> bool;

    /// The state does not contradict itself about this literal, so the
    /// theory can answer for it.
    spec fn decidable(&self, lit: Literal) -> bool;

    /// The theory accepts these literals together: asserted from a fresh
    /// state, they do not contradict one another.
    spec fn accepts(&self, lits: Seq<Literal>) -> bool;

    /// Decide the truth value of a literal under the literals asserted
    /// so far, if possible.
    fn decide(&self, lit: Literal) -> (r: Option<bool>)
        requires
            self.wf(),
            self.decidable(lit),
            lit.wf(),
            self.knows_atom(lit.id()),
        ensures
            r == self.verdict(lit),
            r == None::<bool> ==> self.admits(lit) && self.admits(lit.neg()),
            r == Some(true) ==> self.admits(lit),
            r == Some(false) ==> self.admits(lit.neg()),
            r == Some(true) ==> forall|m: Seq<Literal>|
                #[trigger] self.accepts(m) && includes(m, self.asserted()) ==> !m.contains(lit.neg()),
            r == Some(false) ==> forall|m: Seq<Literal>|
                #[trigger] self.accepts(m) && includes(m, self.asserted()) ==> !m.contains(lit),
            self.silent() ==> r == None::<bool>,
    ;

    /// Add a new literal to the theory.
    fn incorporate(&mut self, lit: Literal)
        requires
            old(self).wf(),
            lit.wf(),
            old(self).knows_atom(lit.id()),
            old(self).admits(lit),
        ensures
            final(self).wf(),
            !final(self).silent() && final(self).consistent() ==> final(self).verdict(lit) == Some(true),
            final(self).asserted() == old(self).asserted().push(lit),
            final(self).same_setup(old(self)),
            forall|m: Seq<Literal>| #[trigger] final(self).accepts(m) == old(self).accepts(m),
            final(self).silent() == old(self).silent(),
            forall|a: int| #[trigger] final(self).knows_atom(a) == old(self).knows_atom(a),
            forall|l: Literal| #[trigger] final(self).admits(l) == old(self).admits(l),
    ;

    /// Forget all literals (used for backjumping).
    fn forget(&mut self)
        requires
            old(self).wf(),
        ensures
            final(self).wf(),
            final(self).consistent(),
            final(self).fresh(),
            final(self).asserted() == Seq::<Literal>::empty(),
            final(self).same_setup(old(self)),
            forall|m: Seq<Literal>| #[trigger] final(self).accepts(m) == old(self).accepts(m),
            final(self).silent() == old(self).silent(),
            forall|a: int| #[trigger] final(self).knows_atom(a) == old(self).knows_atom(a),
            forall|l: Literal| #[trigger] final(self).admits(l) == old(self).admits(l),
    ;

    /// Check whether the literals asserted so far are consistent.
    fn is_consistent(&self) -> (r: bool)
        requires
            self.wf(),
        ensures
            r == self.consistent(),
            self.silent() ==> r,
            r ==> forall|l: Literal| #[trigger] self.decidable(l),
            !r ==> forall|m: Seq<Literal>| #[trigger] self.accepts(m) ==> !includes(m, self.asserted()),
            r ==> self.accepts(self.asserted()),
    ;
}

} // verus!
