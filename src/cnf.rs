//! Types and utility functions for conjunctive normal form.

use crate::dimacs::{push_int, render_int};
use vstd::prelude::*;
use vstd::string::StringExecFns;

verus! {

/// The literals of a clause in decimal, separated by ` || `.
pub open spec fn joined_lits(c: Seq<Literal>) -> Seq<char>
    decreases c.len(),
{
    if c.len() == 0 {
        seq![]
    } else if c.len() == 1 {
        render_int(c[0].0 as int)
    } else {
        joined_lits(c.drop_last()) + seq![' ', '|', '|', ' '] + render_int(c.last().0 as int)
    }
}

/// A clause written in parentheses.
pub open spec fn clause_text(c: Seq<Literal>) -> Seq<char> {
    seq!['('] + joined_lits(c) + seq![')']
}

/// The clauses of a formula written one after the other, separated by
/// ` && `.
pub open spec fn joined_clauses(cs: Seq<Clause>) -> Seq<char>
    decreases cs.len(),
{
    if cs.len() == 0 {
        seq![]
    } else if cs.len() == 1 {
        clause_text(cs[0].0@)
    } else {
        joined_clauses(cs.drop_last()) + seq![' ', '&', '&', ' '] + clause_text(cs.last().0@)
    }
}

/// A literal is either an atom (a positive number) or the negation of
/// that atom (a negative number).
#[derive(Clone, Copy, Debug, PartialEq, Eq, Structural, PartialOrd, Ord)]
pub struct Literal(pub isize);

impl Literal {
    /// A literal is well formed when it names an atom (it is not zero)
    /// and its negation is representable.
    pub open spec fn wf(self) -> bool {
        self.0 != 0 && self.0 != isize::MIN
    }

    /// The atom a literal talks about.
    pub open spec fn id(self) -> int {
        if self.0 < 0 {
            -self.0
        } else {
            self.0 as int
        }
    }

    /// The literal of the same atom with the opposite polarity.
    pub open spec fn neg(self) -> Literal {
        Literal((-self.0) as isize)
    }

    /// Construct a positive literal from an atom.
    pub fn new(atom: isize) -> (r: Literal)
        requires
            atom != 0,
            atom != isize::MIN,
        ensures
            r.0 == atom,
            r.wf(),
    {
        Literal(atom)
    }

    /// Check if a literal is negated.
    pub fn is_negated(self) -> (r: bool)
        ensures
            r == (self.0 < 0),
    {
        let Literal(atom) = self;
        atom < 0
    }

    /// Negate a literal, with double negation cancelling out.
    pub fn negate(self) -> (r: Literal)
        requires
            self.wf(),
        ensures
            r == self.neg(),
            r.0 == -self.0,
            r.wf(),
    {
        let Literal(atom) = self;
        Literal(-atom)
    }

    /// The literal in decimal.
    pub fn to_string(self) -> (r: String)
        requires
            self.wf(),
        ensures
            r@ == render_int(self.0 as int),
    {
        proof {
            reveal_strlit("");
        }
        let mut out = String::from_str("");
        push_int(&mut out, self.0);
        out
    }

    /// Get the numeric ID of a literal.
    pub fn get_id(self) -> (r: isize)
        requires
            self.wf(),
        ensures
            r as int == self.id(),
            r > 0,
    {
        let Literal(atom) = self;
        if atom < 0 {
            -atom
        } else {
            atom
        }
    }
}

/// Double negation is the identity, and a literal and its negation share
/// one positive atom.
pub proof fn lemma_negate_involutive(l: Literal)
    requires
        l.wf(),
    ensures
        l.neg().wf(),
        l.neg().neg() == l,
        l.neg().id() == l.id(),
        l.id() > 0,
        l.neg() != l,
{
}

/// A clause is a disjunction of literals.
#[derive(Clone, Debug, PartialEq, Eq, PartialOrd, Ord)]
pub struct Clause(pub Vec<Literal>);

impl Clause {
    /// Every literal of the clause is well formed.
    pub open spec fn wf(&self) -> bool {
        forall|i: int| 0 <= i < self.0@.len() ==> (#[trigger] self.0@[i]).wf()
    }

    /// Construct a new clause from numeric literals.
    pub fn new(lits: Vec<isize>) -> (r: Clause)
        requires
            forall|i: int| 0 <= i < lits@.len() ==> #[trigger] lits@[i] != 0 && lits@[i] != isize::MIN,
        ensures
            r.0@.len() == lits@.len(),
            forall|i: int| 0 <= i < lits@.len() ==> #[trigger] r.0@[i] == Literal(lits@[i]),
            r.wf(),
    {
        let mut out: Vec<Literal> = Vec::new();
        let mut i: usize = 0;
        while i < lits.len()
            invariant
                i <= lits@.len(),
                out@.len() == i,
                forall|j: int| 0 <= j < lits@.len() ==> #[trigger] lits@[j] != 0 && lits@[j] != isize::MIN,
                forall|j: int| 0 <= j < i ==> #[trigger] out@[j] == Literal(lits@[j]),
            decreases lits@.len() - i,
        {
            out.push(Literal::new(lits[i]));
            i = i + 1;
        }
        Clause(out)
    }

    /// The clause as text: its literals in parentheses, separated by
    /// ` || `.
    pub fn to_string(&self) -> (r: String)
        requires
            self.wf(),
        ensures
            r@ == clause_text(self.0@),
    {
        proof {
            reveal_strlit("");
            reveal_strlit("(");
        }
        let lits = &self.0;
        let mut out = String::from_str("(");
        let mut i: usize = 0;
        assert(self.0@.subrange(0, 0) =~= seq![]);
        while i < lits.len()
            invariant
                self.wf(),
                lits@ == self.0@,
                i <= lits@.len(),
                out@ == seq!['('] + joined_lits(self.0@.subrange(0, i as int)),
            decreases lits@.len() - i,
        {
            proof {
                reveal_strlit(" || ");
            }
            let ghost prev = self.0@.subrange(0, i as int);
            let ghost next = self.0@.subrange(0, i + 1);
            assert(next.drop_last() =~= prev);
            assert(next.last() == lits@[i as int]);
            assert(lits@[i as int].wf());
            if i > 0 {
                out.append(" || ");
            }
            push_int(&mut out, lits[i].0);
            i = i + 1;
        }
        proof {
            reveal_strlit(")");
        }
        out.append(")");
        assert(self.0@.subrange(0, lits@.len() as int) =~= self.0@);
        out
    }

    /// Add a literal to a clause.  Two literals corresponding to the
    /// same atom, but in positive and negative forms, can exist in
    /// the same clause.
    pub fn insert_literal(&mut self, lit: Literal)
        ensures
            final(self).0@ == old(self).0@.push(lit),
    {
        self.0.push(lit);
    }
}

/// A formula is a conjunction of clauses.
#[derive(Clone, Debug, PartialEq, Eq, PartialOrd, Ord)]
pub struct Formula(pub Vec<Clause>);

impl Formula {
    /// Every clause of the formula is well formed.
    pub open spec fn wf(&self) -> bool {
        forall|i: int| 0 <= i < self.0@.len() ==> (#[trigger] self.0@[i]).wf()
    }

    /// Construct a new formula from a list of clauses.
    pub fn new(clauses: Vec<Clause>) -> (r: Formula)
        ensures
            r.0@ == clauses@,
    {
        Formula(clauses)
    }

    /// The formula as text: its clauses separated by ` && `.
    pub fn to_string(&self) -> (r: String)
        requires
            self.wf(),
        ensures
            r@ == joined_clauses(self.0@),
    {
        proof {
            reveal_strlit("");
        }
        let clauses = &self.0;
        let mut out = String::from_str("");
        let mut i: usize = 0;
        assert(self.0@.subrange(0, 0) =~= seq![]);
        while i < clauses.len()
            invariant
                self.wf(),
                clauses@ == self.0@,
                i <= clauses@.len(),
                out@ == joined_clauses(self.0@.subrange(0, i as int)),
            decreases clauses@.len() - i,
        {
            proof {
                reveal_strlit(" && ");
            }
            let ghost prev = self.0@.subrange(0, i as int);
            let ghost next = self.0@.subrange(0, i + 1);
            assert(next.drop_last() =~= prev);
            assert(next.last() == clauses@[i as int]);
            assert(clauses@[i as int].wf());
            if i > 0 {
                out.append(" && ");
            }
            let text = clauses[i].to_string();
            out.append(text.as_str());
            i = i + 1;
        }
        assert(self.0@.subrange(0, clauses@.len() as int) =~= self.0@);
        out
    }

    /// Add a clause to a formula.
    pub fn insert_clause(&mut self, clause: Clause)
        ensures
            final(self).0@ == old(self).0@.push(clause),
    {
        self.0.push(clause);
    }
}

} // verus!
