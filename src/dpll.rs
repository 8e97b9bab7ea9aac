//! A basic DPLL search over a trail of literals, with a background theory
//! consulted eagerly and reset on every backjump.

use crate::cnf::{Clause, Formula, Literal};
use crate::theory::{includes, Theory};
use vstd::prelude::*;
use vstd::set_lib::*;

verus! {

// ---------------------------------------------------------------------
// Semantics over a set of true literals
// ---------------------------------------------------------------------

/// Truth of a literal under the literals held true: true when it is held,
/// false when its negation is, unknown otherwise.
pub open spec fn lit_value(l: Literal, t: Seq<Literal>) -> Option<bool> {
    if t.contains(l) {
        Some(true)
    } else if t.contains(l.neg()) {
        Some(false)
    } else {
        None
    }
}

/// Truth of a disjunction: true when some literal is true, false when all
/// literals are false, unknown otherwise.
pub open spec fn clause_value(c: Seq<Literal>, t: Seq<Literal>) -> Option<bool> {
    if exists|i: int| 0 <= i < c.len() && lit_value(#[trigger] c[i], t) == Some(true) {
        Some(true)
    } else if forall|i: int| 0 <= i < c.len() ==> lit_value(#[trigger] c[i], t) == Some(false) {
        Some(false)
    } else {
        None
    }
}

/// Truth of a conjunction, evaluated clause by clause: the first clause
/// that is not true gives the result.
pub open spec fn formula_value(cs: Seq<Clause>, t: Seq<Literal>) -> Option<bool>
    decreases cs.len(),
{
    if cs.len() == 0 {
        Some(true)
    } else {
        match clause_value(cs[0].0@, t) {
            Some(true) => formula_value(cs.drop_first(), t),
            v => v,
        }
    }
}

/// No literal is held together with its negation.
pub open spec fn consistent(t: Seq<Literal>) -> bool {
    forall|l: Literal| #[trigger] t.contains(l) ==> !t.contains(l.neg())
}

/// The clause holds one of the literals.
pub open spec fn clause_holds(c: Clause, t: Seq<Literal>) -> bool {
    exists|j: int| 0 <= j < c.0@.len() && t.contains(#[trigger] c.0@[j])
}

/// Every clause of the formula holds one of the literals.
pub open spec fn satisfied_by(f: Formula, t: Seq<Literal>) -> bool {
    forall|i: int| 0 <= i < f.0@.len() ==> clause_holds(#[trigger] f.0@[i], t)
}

// ---------------------------------------------------------------------
// Semantics over total assignments
// ---------------------------------------------------------------------

/// A literal is true under a total assignment of atoms.
pub open spec fn lit_sat(a: spec_fn(int) -> bool, l: Literal) -> bool {
    if l.0 > 0 {
        a(l.0 as int)
    } else {
        !a(l.id())
    }
}

/// A total assignment satisfies some literal of the clause.
pub open spec fn clause_sat(a: spec_fn(int) -> bool, c: Clause) -> bool {
    exists|j: int| 0 <= j < c.0@.len() && lit_sat(a, #[trigger] c.0@[j])
}

/// A total assignment satisfies every clause of the formula.
pub open spec fn formula_sat(a: spec_fn(int) -> bool, f: Formula) -> bool {
    forall|i: int| 0 <= i < f.0@.len() ==> clause_sat(a, #[trigger] f.0@[i])
}

/// Some total assignment satisfies the formula.
pub open spec fn satisfiable(f: Formula) -> bool {
    exists|a: spec_fn(int) -> bool| formula_sat(a, f)
}

// ---------------------------------------------------------------------
// Evaluation
// ---------------------------------------------------------------------

impl Literal {
    /// A literal is true in a model if it's a member of the set.
    /// This will return 'None' if the model doesn't have an
    /// assignment of truth for the literal or its negation.
    pub fn is_true_in(self, model: &Model) -> (r: Option<bool>)
        requires
            self.wf(),
        ensures
            r == lit_value(self, model.lits()),
    {
        if model.contains(self) {
            Some(true)
        } else if model.contains(self.negate()) {
            Some(false)
        } else {
            None
        }
    }
}

impl Clause {
    /// A clause is true in a model if any of its literals are true in
    /// the model.  This will return 'None' if none of the literals
    /// have their truth decided by the model.
    pub fn is_true_in(&self, model: &Model) -> (r: Option<bool>)
        requires
            self.wf(),
        ensures
            r == clause_value(self.0@, model.lits()),
    {
        let lits = &self.0;
        let mut all_false = true;
        let mut i: usize = 0;
        while i < lits.len()
            invariant
                self.wf(),
                lits@ == self.0@,
                i <= lits@.len(),
                forall|j: int| 0 <= j < i ==> lit_value(#[trigger] lits@[j], model.lits()) != Some(true),
                all_false == forall|j: int| 0 <= j < i ==> lit_value(#[trigger] lits@[j], model.lits()) == Some(false),
            decreases lits@.len() - i,
        {
            match lits[i].is_true_in(model) {
                Some(true) => {
                    return Some(true);
                },
                Some(false) => {},
                None => {
                    all_false = false;
                },
            }
            i = i + 1;
        }
        if all_false {
            Some(false)
        } else {
            None
        }
    }
}

impl Formula {
    /// A formula is true in a model if all of its clauses are true in
    /// the model.  This will return 'None' if at least one of the
    /// clauses doesn't have its truth determined by the model.
    pub fn is_true_in(&self, model: &Model) -> (r: Option<bool>)
        requires
            self.wf(),
        ensures
            r == formula_value(self.0@, model.lits()),
    {
        let clauses = &self.0;
        let mut i: usize = 0;
        assert(self.0@.subrange(0, self.0@.len() as int) =~= self.0@);
        while i < clauses.len()
            invariant
                self.wf(),
                clauses@ == self.0@,
                i <= clauses@.len(),
                formula_value(self.0@, model.lits()) == formula_value(
                    self.0@.subrange(i as int, self.0@.len() as int),
                    model.lits(),
                ),
            decreases clauses@.len() - i,
        {
            let ghost rest = self.0@.subrange(i as int, self.0@.len() as int);
            assert(rest.drop_first() =~= self.0@.subrange(i + 1, self.0@.len() as int));
            assert(rest[0] == self.0@[i as int]);
            match clauses[i].is_true_in(model) {
                Some(true) => {},
                Some(false) => {
                    return Some(false);
                },
                None => {
                    return None;
                },
            }
            i = i + 1;
        }
        Some(true)
    }
}

// ---------------------------------------------------------------------
// The trail
// ---------------------------------------------------------------------

/// Literals in a model track where they've come from: this is because
/// backtracking is done in terms of literals arising from decisions.
#[derive(Clone, Copy, Debug, PartialEq, Eq, Structural, PartialOrd, Ord)]
pub enum Provenance {
    UnitPropagation,
    TheoryPropagation,
    Decision,
    Backjump,
}

/// A model, or partial truth assignment, is a sequence of literals which
/// are true.  Implemented as a vec because the DPLL algorithm makes
/// use of the order of assignments when backtracking.
#[derive(Clone, Debug, PartialEq, Eq, PartialOrd, Ord)]
pub struct Model(Vec<(Literal, Provenance)>);

/// The literals of a trail, in order.
pub open spec fn trail_lits(m: Seq<(Literal, Provenance)>) -> Seq<Literal> {
    m.map_values(|e: (Literal, Provenance)| e.0)
}

impl View for Model {
    type V = Seq<(Literal, Provenance)>;

    closed spec fn view(&self) -> Seq<(Literal, Provenance)> {
        self.0@
    }
}

impl Model {
    /// The literals held true by the model, in order.
    pub open spec fn lits(&self) -> Seq<Literal> {
        trail_lits(self@)
    }

    /// Construct a new empty model.
    pub fn new() -> (r: Model)
        ensures
            r@ == Seq::<(Literal, Provenance)>::empty(),
    {
        Model(Vec::new())
    }

    /// Append a literal to a model.
    pub fn append(&mut self, lit: Literal, provenance: Provenance)
        ensures
            final(self)@ == old(self)@.push((lit, provenance)),
    {
        self.0.push((lit, provenance));
    }

    /// Check if the model contains a literal.
    fn contains(&self, lit: Literal) -> (r: bool)
        ensures
            r == self.lits().contains(lit),
    {
        let lits = &self.0;
        let mut i: usize = 0;
        while i < lits.len()
            invariant
                lits@ == self@,
                i <= lits@.len(),
                forall|j: int| 0 <= j < i ==> (#[trigger] lits@[j]).0 != lit,
            decreases lits@.len() - i,
        {
            if lits[i].0 == lit {
                assert(self.lits()[i as int] == lit);
                return true;
            }
            i = i + 1;
        }
        assert forall|j: int| 0 <= j < self.lits().len() implies #[trigger] self.lits()[j] != lit by {
            assert(lits@[j].0 != lit);
        }
        false
    }

    /// Get the true literals from the model, discarding the
    /// provenance information.
    pub fn get_assignments(&self) -> (r: Vec<Literal>)
        ensures
            r@ == self.lits(),
    {
        let lits = &self.0;
        let mut out: Vec<Literal> = Vec::new();
        let mut i: usize = 0;
        while i < lits.len()
            invariant
                lits@ == self@,
                i <= lits@.len(),
                out@ =~= trail_lits(self@).subrange(0, i as int),
            decreases lits@.len() - i,
        {
            out.push(lits[i].0);
            i = i + 1;
        }
        out
    }
}

// ---------------------------------------------------------------------
// Facts about evaluation
// ---------------------------------------------------------------------

/// A formula is true exactly when all its clauses are; otherwise its value
/// is the value of one of its clauses.
pub proof fn lemma_formula_value(cs: Seq<Clause>, t: Seq<Literal>)
    ensures
        (formula_value(cs, t) == Some(true)) == (forall|i: int|
            0 <= i < cs.len() ==> clause_value(#[trigger] cs[i].0@, t) == Some(true)),
        formula_value(cs, t) != Some(true) ==> exists|i: int|
            0 <= i < cs.len() && clause_value(#[trigger] cs[i].0@, t) == formula_value(cs, t),
    decreases cs.len(),
{
    if cs.len() > 0 {
        lemma_formula_value(cs.drop_first(), t);
        if clause_value(cs[0].0@, t) == Some(true) {
            assert forall|i: int| 0 < i < cs.len() implies #[trigger] cs[i] == cs.drop_first()[i - 1] by {}
            if formula_value(cs, t) != Some(true) {
                let k = choose|k: int|
                    0 <= k < cs.drop_first().len() && clause_value(
                        #[trigger] cs.drop_first()[k].0@,
                        t,
                    ) == formula_value(cs.drop_first(), t);
                assert(cs[k + 1] == cs.drop_first()[k]);
            }
        }
    }
}

/// Two well-formed literals on one atom are equal or opposite.
pub proof fn lemma_same_atom(x: Literal, y: Literal)
    requires
        x.wf(),
        y.wf(),
        x.id() == y.id(),
    ensures
        x == y || x == y.neg(),
{
}

/// Negation flips truth under a total assignment.
pub proof fn lemma_lit_sat_neg(a: spec_fn(int) -> bool, l: Literal)
    requires
        l.wf(),
    ensures
        lit_sat(a, l.neg()) == !lit_sat(a, l),
{
}

/// Evaluation is monotone in the literals held true: growing a consistent
/// set of true literals never changes a decided value.
pub proof fn lemma_value_monotone(f: Formula, t1: Seq<Literal>, t2: Seq<Literal>)
    requires
        f.wf(),
        forall|l: Literal| t1.contains(l) ==> #[trigger] t2.contains(l),
        consistent(t2),
    ensures
        formula_value(f.0@, t1) != None::<bool> ==> formula_value(f.0@, t2) == formula_value(f.0@, t1),
{
    lemma_formula_value(f.0@, t1);
    lemma_formula_value(f.0@, t2);
    assert forall|i: int| 0 <= i < f.0@.len() && clause_value(#[trigger] f.0@[i].0@, t1) != None::<bool>
        implies clause_value(f.0@[i].0@, t2) == clause_value(f.0@[i].0@, t1) by {
        let c = f.0@[i].0@;
        if clause_value(c, t1) == Some(true) {
            let k = choose|k: int| 0 <= k < c.len() && lit_value(#[trigger] c[k], t1) == Some(true);
            assert(lit_value(c[k], t2) == Some(true));
        } else {
            assert forall|k: int| 0 <= k < c.len() implies lit_value(#[trigger] c[k], t2) == Some(false) by {
                assert(lit_value(c[k], t1) == Some(false));
                assert(t2.contains(c[k].neg()));
            }
        }
    }
    if formula_value(f.0@, t1) == Some(true) {
    } else if formula_value(f.0@, t1) == Some(false) {
        lemma_first_undecided_value(f.0@, t1, t2);
    }
}

/// Under the hypotheses of monotonicity, a formula false under the smaller
/// set stays false under the larger one.
proof fn lemma_first_undecided_value(cs: Seq<Clause>, t1: Seq<Literal>, t2: Seq<Literal>)
    requires
        forall|i: int| 0 <= i < cs.len() && clause_value(#[trigger] cs[i].0@, t1) != None::<bool>
            ==> clause_value(cs[i].0@, t2) == clause_value(cs[i].0@, t1),
        formula_value(cs, t1) == Some(false),
    ensures
        formula_value(cs, t2) == Some(false),
    decreases cs.len(),
{
    assert(cs.len() > 0);
    assert(clause_value(cs[0].0@, t1) != None::<bool>);
    if clause_value(cs[0].0@, t1) == Some(true) {
        assert forall|i: int| 0 <= i < cs.drop_first().len() && clause_value(#[trigger] cs.drop_first()[i].0@, t1) != None::<bool>
            implies clause_value(cs.drop_first()[i].0@, t2) == clause_value(cs.drop_first()[i].0@, t1) by {
            assert(cs.drop_first()[i] == cs[i + 1]);
        }
        lemma_first_undecided_value(cs.drop_first(), t1, t2);
    }
}

// ---------------------------------------------------------------------
// Search invariants
// ---------------------------------------------------------------------

/// The formula mentions this atom.
pub open spec fn has_atom(f: Formula, x: int) -> bool {
    exists|i: int, j: int| 0 <= i < f.0@.len() && 0 <= j < f.0@[i].0@.len() && (#[trigger] f.0@[i].0@[j]).id() == x
}

/// The atoms the formula mentions.
pub open spec fn atoms(f: Formula) -> Set<int> {
    Set::new(|x: int| has_atom(f, x))
}

/// No atom occurs twice on the trail.
pub open spec fn distinct_atoms(m: Seq<(Literal, Provenance)>) -> bool {
    forall|i: int, j: int| 0 <= i < m.len() && 0 <= j < m.len() && i != j ==> (#[trigger] m[i]).0.id() != (#[trigger] m[j]).0.id()
}

/// The position of the most recent decision on the trail, or -1.
pub open spec fn last_decision(m: Seq<(Literal, Provenance)>) -> int
    decreases m.len(),
{
    if m.len() == 0 {
        -1
    } else if m.last().1 == Provenance::Decision {
        m.len() - 1
    } else {
        last_decision(m.drop_last())
    }
}

proof fn lemma_last_decision(m: Seq<(Literal, Provenance)>)
    ensures
        -1 <= last_decision(m) < m.len(),
        last_decision(m) >= 0 ==> m[last_decision(m)].1 == Provenance::Decision,
        forall|k: int| last_decision(m) < k < m.len() ==> (#[trigger] m[k]).1 != Provenance::Decision,
    decreases m.len(),
{
    if m.len() > 0 && m.last().1 != Provenance::Decision {
        lemma_last_decision(m.drop_last());
        assert forall|k: int| last_decision(m) < k < m.len() implies (#[trigger] m[k]).1 != Provenance::Decision by {
            if k < m.len() - 1 {
                assert(m[k] == m.drop_last()[k]);
            }
        }
    }
}

/// A total assignment agrees with every decision before position `k`.
pub open spec fn agrees_decisions(a: spec_fn(int) -> bool, m: Seq<(Literal, Provenance)>, k: int) -> bool {
    forall|j: int| 0 <= j < k && (#[trigger] m[j]).1 == Provenance::Decision ==> lit_sat(a, m[j].0)
}

/// Every model of the formula that follows the decisions before position
/// `i` makes the literal at position `i` true.
pub open spec fn entailed(f: Formula, m: Seq<(Literal, Provenance)>, i: int) -> bool {
    forall|a: spec_fn(int) -> bool| #[trigger] formula_sat(a, f) && agrees_decisions(a, m, i) ==> lit_sat(a, m[i].0)
}

/// Every literal on the trail that is not a decision is forced by the
/// formula and the decisions before it.
pub open spec fn implied(f: Formula, m: Seq<(Literal, Provenance)>) -> bool {
    forall|i: int| 0 <= i < m.len() && m[i].1 != Provenance::Decision ==> #[trigger] entailed(f, m, i)
}

/// A model of the formula that follows all decisions of an implied trail
/// makes every trail literal true.
proof fn lemma_follows_trail(f: Formula, m: Seq<(Literal, Provenance)>, a: spec_fn(int) -> bool)
    requires
        implied(f, m),
        formula_sat(a, f),
        agrees_decisions(a, m, m.len() as int),
    ensures
        forall|i: int| 0 <= i < m.len() ==> lit_sat(a, (#[trigger] m[i]).0),
{
    assert forall|i: int| 0 <= i < m.len() implies lit_sat(a, (#[trigger] m[i]).0) by {
        if m[i].1 != Provenance::Decision {
            assert(entailed(f, m, i));
            assert(agrees_decisions(a, m, i));
        }
    }
}

/// A formula that is false under a trail is false under every total
/// assignment that makes the trail's literals true.
proof fn lemma_conflict_unsat(f: Formula, m: Seq<(Literal, Provenance)>, a: spec_fn(int) -> bool)
    requires
        f.wf(),
        formula_value(f.0@, trail_lits(m)) == Some(false),
        forall|i: int| 0 <= i < m.len() ==> lit_sat(a, (#[trigger] m[i]).0),
    ensures
        !formula_sat(a, f),
{
    lemma_formula_value(f.0@, trail_lits(m));
    let i = choose|i: int| 0 <= i < f.0@.len() && clause_value(#[trigger] f.0@[i].0@, trail_lits(m)) == Some(false);
    let c = f.0@[i];
    assert forall|j: int| 0 <= j < c.0@.len() implies !lit_sat(a, #[trigger] c.0@[j]) by {
        assert(lit_value(c.0@[j], trail_lits(m)) == Some(false));
        assert(trail_lits(m).contains(c.0@[j].neg()));
        let k = choose|k: int| 0 <= k < trail_lits(m).len() && trail_lits(m)[k] == c.0@[j].neg();
        assert(lit_sat(a, m[k].0));
        lemma_lit_sat_neg(a, c.0@[j]);
    }
    assert(!clause_sat(a, c));
}

// ---------------------------------------------------------------------
// Termination measure
// ---------------------------------------------------------------------

/// Powers of three.
pub open spec fn pow3(k: nat) -> nat
    decreases k,
{
    if k == 0 {
        1
    } else {
        3 * pow3((k - 1) as nat)
    }
}

/// The trail read as a number in base three with `n` digits: a decision
/// counts 1, any other entry 2, and an empty slot 0.  Every step of the
/// search makes it grow.
pub open spec fn rank(m: Seq<(Literal, Provenance)>, n: nat) -> nat
    decreases m.len(),
{
    if m.len() == 0 || n == 0 {
        0
    } else {
        (if m[0].1 == Provenance::Decision {
            pow3((n - 1) as nat)
        } else {
            2 * pow3((n - 1) as nat)
        }) + rank(m.drop_first(), (n - 1) as nat)
    }
}

proof fn lemma_pow3_pos(k: nat)
    ensures
        pow3(k) >= 1,
    decreases k,
{
    if k > 0 {
        lemma_pow3_pos((k - 1) as nat);
    }
}

proof fn lemma_rank_bound(m: Seq<(Literal, Provenance)>, n: nat)
    requires
        m.len() <= n,
    ensures
        rank(m, n) < pow3(n),
    decreases m.len(),
{
    lemma_pow3_pos(n);
    if m.len() > 0 {
        lemma_rank_bound(m.drop_first(), (n - 1) as nat);
    }
}

proof fn lemma_rank_push(m: Seq<(Literal, Provenance)>, e: (Literal, Provenance), n: nat)
    requires
        m.len() < n,
    ensures
        rank(m.push(e), n) > rank(m, n),
    decreases m.len(),
{
    lemma_pow3_pos((n - 1) as nat);
    if m.len() > 0 {
        assert(m.push(e).drop_first() =~= m.drop_first().push(e));
        lemma_rank_push(m.drop_first(), e, (n - 1) as nat);
    } else {
        assert(m.push(e).drop_first().len() == 0);
    }
}

proof fn lemma_rank_backjump(m: Seq<(Literal, Provenance)>, j: int, e: (Literal, Provenance), n: nat)
    requires
        0 <= j < m.len(),
        m.len() <= n,
        m[j].1 == Provenance::Decision,
        e.1 != Provenance::Decision,
    ensures
        rank(m.subrange(0, j).push(e), n) > rank(m, n),
    decreases j,
{
    let b = m.subrange(0, j).push(e);
    if j == 0 {
        assert(b.drop_first().len() == 0);
        lemma_rank_bound(m.drop_first(), (n - 1) as nat);
    } else {
        assert(b[0] == m[0]);
        assert(b.drop_first() =~= m.drop_first().subrange(0, j - 1).push(e));
        lemma_rank_backjump(m.drop_first(), j - 1, e, (n - 1) as nat);
    }
}

/// A trail whose atoms are distinct atoms of the formula is no longer than
/// the formula's set of atoms, which is finite.
proof fn lemma_trail_bound(f: Formula, m: Seq<(Literal, Provenance)>)
    requires
        f.wf(),
        distinct_atoms(m),
        forall|i: int| 0 <= i < m.len() ==> has_atom(f, (#[trigger] m[i]).0.id()),
    ensures
        atoms(f).finite(),
        m.len() <= atoms(f).len(),
{
    let ids = m.map_values(|e: (Literal, Provenance)| e.0.id());
    assert forall|i: int, j: int| 0 <= i < ids.len() && 0 <= j < ids.len() && i != j implies ids[i] != ids[j] by {
        assert(m[i].0.id() != m[j].0.id());
    }
    assert(ids.no_duplicates());
    ids.unique_seq_to_set();
    assert forall|x: int| atoms(f).contains(x) implies #[trigger] set_int_range(1, isize::MAX + 1).contains(x) by {
        let (i, j) = choose|i: int, j: int| 0 <= i < f.0@.len() && 0 <= j < f.0@[i].0@.len() && (#[trigger] f.0@[i].0@[j]).id() == x;
        assert(f.0@[i].wf());
    }
    lemma_int_range(1, isize::MAX + 1);
    lemma_len_subset(atoms(f), set_int_range(1, isize::MAX + 1));
    assert forall|x: int| ids.to_set().contains(x) implies #[trigger] atoms(f).contains(x) by {
        let k = choose|k: int| 0 <= k < ids.len() && ids[k] == x;
        assert(has_atom(f, m[k].0.id()));
    }
    lemma_len_subset(ids.to_set(), atoms(f));
}

// ---------------------------------------------------------------------
// Search steps
// ---------------------------------------------------------------------

/// Pop the trail up to and including its most recent decision, and push
/// the negation of that decision.  Returns false, leaving the trail empty,
/// when there is no decision to undo.
fn do_backjump(model: &mut Model) -> (r: bool)
    requires
        forall|i: int| 0 <= i < old(model)@.len() ==> (#[trigger] old(model)@[i]).0.wf(),
    ensures
        r == (last_decision(old(model)@) >= 0),
        r ==> final(model)@ == old(model)@.subrange(0, last_decision(old(model)@)).push(
            (old(model)@[last_decision(old(model)@)].0.neg(), Provenance::Backjump),
        ),
        !r ==> final(model)@.len() == 0,
{
    let ghost m0 = model@;
    loop
        invariant
            m0 == old(model)@,
            forall|i: int| 0 <= i < m0.len() ==> (#[trigger] m0[i]).0.wf(),
            model@.len() <= m0.len(),
            model@ == m0.subrange(0, model@.len() as int),
            last_decision(model@) == last_decision(m0),
        decreases model@.len(),
    {
        let ghost before = model@;
        match model.0.pop() {
            Some((lit, provenance)) => {
                assert(before.drop_last() == model@);
                assert(before.last() == (lit, provenance));
                if matches!(provenance, Provenance::Decision) {
                    assert(last_decision(before) == before.len() - 1);
                    assert(m0[last_decision(m0)] == before.last());
                    assert(model@ =~= m0.subrange(0, last_decision(m0)));
                    model.append(lit.negate(), Provenance::Backjump);
                    return true;
                }
                assert(last_decision(before) == last_decision(model@));
                assert(model@ =~= m0.subrange(0, model@.len() as int));
            },
            None => {
                assert(last_decision(model@) == -1);
                return false;
            },
        }
    }
}

/// Literal `li` of clause `ci` is a unit: the clause is unknown, the
/// literal unassigned, and every other literal of the clause false.
pub open spec fn unit_at(f: Formula, t: Seq<Literal>, ci: int, li: int) -> bool {
    &&& 0 <= ci < f.0@.len()
    &&& 0 <= li < f.0@[ci].0@.len()
    &&& clause_value(f.0@[ci].0@, t) == None::<bool>
    &&& lit_value(f.0@[ci].0@[li], t) == None::<bool>
    &&& forall|k: int|
        0 <= k < f.0@[ci].0@.len() && f.0@[ci].0@[k] != f.0@[ci].0@[li] ==> lit_value(
            #[trigger] f.0@[ci].0@[k],
            t,
        ) == Some(false)
}

/// Position `(a, b)` comes before position `(c, d)`: clause order, then
/// literal order.
pub open spec fn before(a: int, b: int, c: int, d: int) -> bool {
    a < c || (a == c && b < d)
}

/// Find the first unit literal, in clause order then literal order.
fn do_unit_propagation(model: &Model, formula: &Formula) -> (r: Option<Literal>)
    requires
        formula.wf(),
    ensures
        r matches Some(l) ==> exists|ci: int, li: int|
            #[trigger] unit_at(*formula, model.lits(), ci, li) && formula.0@[ci].0@[li] == l
                && forall|cj: int, lj: int| before(cj, lj, ci, li) ==> !#[trigger] unit_at(*formula, model.lits(), cj, lj),
        r is None ==> forall|ci: int, li: int| !#[trigger] unit_at(*formula, model.lits(), ci, li),
        r matches Some(l) ==> exists|ci: int, li: int|
            0 <= ci < formula.0@.len() && 0 <= li < formula.0@[ci].0@.len()
                && #[trigger] formula.0@[ci].0@[li] == l
                && lit_value(l, model.lits()) == None::<bool>
                && forall|k: int| 0 <= k < formula.0@[ci].0@.len() && formula.0@[ci].0@[k] != l
                    ==> lit_value(#[trigger] formula.0@[ci].0@[k], model.lits()) == Some(false),
{
    let clauses = &formula.0;
    let mut ci: usize = 0;
    while ci < clauses.len()
        invariant
            formula.wf(),
            clauses@ == formula.0@,
            ci <= clauses@.len(),
            forall|cj: int, lj: int| 0 <= cj < ci ==> !#[trigger] unit_at(*formula, model.lits(), cj, lj),
        decreases clauses@.len() - ci,
    {
        let clause = &clauses[ci];
        assert(clause.wf());
        if clause.is_true_in(model).is_none() {
            let lits = &clause.0;
            let mut li: usize = 0;
            while li < lits.len()
                invariant
                    formula.wf(),
                    clause.wf(),
                    clauses@ == formula.0@,
                    lits@ == clause.0@,
                    clause == formula.0@[ci as int],
                    ci < formula.0@.len(),
                    li <= lits@.len(),
                    clause_value(clause.0@, model.lits()) == None::<bool>,
                    forall|cj: int, lj: int| 0 <= cj < ci ==> !#[trigger] unit_at(*formula, model.lits(), cj, lj),
                    forall|lj: int| 0 <= lj < li ==> !#[trigger] unit_at(*formula, model.lits(), ci as int, lj),
                decreases lits@.len() - li,
            {
                let lit = lits[li];
                if lit.is_true_in(model).is_none() {
                    let mut others_false = true;
                    let mut k: usize = 0;
                    while k < lits.len()
                        invariant
                            clause.wf(),
                            lits@ == clause.0@,
                            k <= lits@.len(),
                            others_false == forall|j: int| 0 <= j < k && lits@[j] != lit
                                ==> lit_value(#[trigger] lits@[j], model.lits()) == Some(false),
                        decreases lits@.len() - k,
                    {
                        if lits[k] != lit {
                            if !matches!(lits[k].is_true_in(model), Some(false)) {
                                others_false = false;
                            }
                        }
                        k = k + 1;
                    }
                    assert(formula.0@[ci as int].0@[li as int] == lit);
                    if others_false {
                        assert(unit_at(*formula, model.lits(), ci as int, li as int));
                        return Some(lit);
                    }
                    assert(!unit_at(*formula, model.lits(), ci as int, li as int));
                }
                li = li + 1;
            }
        }
        ci = ci + 1;
    }
    None
}

/// Literal `li` of clause `ci` is one the theory decides: its clause is not
/// yet true, it is unassigned, and the theory has a verdict on it.
pub open spec fn decided_at<T: Theory>(th: T, f: Formula, t: Seq<Literal>, ci: int, li: int) -> bool {
    &&& 0 <= ci < f.0@.len()
    &&& 0 <= li < f.0@[ci].0@.len()
    &&& clause_value(f.0@[ci].0@, t) != Some(true)
    &&& lit_value(f.0@[ci].0@[li], t) == None::<bool>
    &&& th.verdict(f.0@[ci].0@[li]) != None::<bool>
}

/// Ask the theory about the unassigned literals of the clauses not yet
/// true, in order, and return the first literal it forces: the literal
/// itself when the theory holds it true, its negation when false.
fn do_theory_propagation<T: Theory>(theory: &T, model: &Model, formula: &Formula) -> (r: Option<Literal>)
    requires
        formula.wf(),
        theory.wf(),
        forall|l: Literal| #[trigger] theory.decidable(l),
        forall|x: int| has_atom(*formula, x) ==> theory.knows_atom(x),
    ensures
        r matches Some(x) ==> exists|ci: int, li: int|
            #[trigger] decided_at(*theory, *formula, model.lits(), ci, li) && x == (if theory.verdict(
                formula.0@[ci].0@[li],
            ) == Some(true) {
                formula.0@[ci].0@[li]
            } else {
                formula.0@[ci].0@[li].neg()
            }) && forall|cj: int, lj: int| before(cj, lj, ci, li) ==> !#[trigger] decided_at(
                *theory,
                *formula,
                model.lits(),
                cj,
                lj,
            ),
        r is None ==> forall|ci: int, li: int| !#[trigger] decided_at(*theory, *formula, model.lits(), ci, li),
        r matches Some(x) ==> forall|w: Seq<Literal>|
            #[trigger] theory.accepts(w) && includes(w, theory.asserted()) ==> !w.contains(x.neg()),
        r matches Some(l) ==> l.wf() && has_atom(*formula, l.id()) && lit_value(l, model.lits())
            == None::<bool> && theory.admits(l) && !theory.silent(),
        r is None ==> forall|ci: int, li: int|
            0 <= ci < formula.0@.len() && 0 <= li < formula.0@[ci].0@.len() && clause_value(
                formula.0@[ci].0@,
                model.lits(),
            ) != Some(true) && lit_value(#[trigger] formula.0@[ci].0@[li], model.lits()) == None::<bool>
                ==> theory.admits(formula.0@[ci].0@[li]) && theory.admits(formula.0@[ci].0@[li].neg()),
{
    let clauses = &formula.0;
    let mut ci: usize = 0;
    while ci < clauses.len()
        invariant
            formula.wf(),
            theory.wf(),
            forall|l: Literal| #[trigger] theory.decidable(l),
            forall|x: int| has_atom(*formula, x) ==> theory.knows_atom(x),
            clauses@ == formula.0@,
            ci <= clauses@.len(),
            forall|cj: int, lj: int| 0 <= cj < ci ==> !#[trigger] decided_at(*theory, *formula, model.lits(), cj, lj),
            forall|cj: int, lj: int|
                0 <= cj < ci && 0 <= lj < formula.0@[cj].0@.len() && clause_value(formula.0@[cj].0@, model.lits())
                    != Some(true) && lit_value(#[trigger] formula.0@[cj].0@[lj], model.lits()) == None::<bool>
                    ==> theory.admits(formula.0@[cj].0@[lj]) && theory.admits(formula.0@[cj].0@[lj].neg()),
        decreases clauses@.len() - ci,
    {
        assert(clauses[ci as int].wf());
        if !matches!(clauses[ci].is_true_in(model), Some(true)) {
            let lits = &clauses[ci].0;
            let mut li: usize = 0;
            while li < lits.len()
                invariant
                    formula.wf(),
                    theory.wf(),
                    forall|l: Literal| #[trigger] theory.decidable(l),
                    forall|x: int| has_atom(*formula, x) ==> theory.knows_atom(x),
                    clauses@ == formula.0@,
                    ci < clauses@.len(),
                    lits@ == formula.0@[ci as int].0@,
                    clause_value(formula.0@[ci as int].0@, model.lits()) != Some(true),
                    li <= lits@.len(),
                    forall|cj: int, lj: int| 0 <= cj < ci ==> !#[trigger] decided_at(*theory, *formula, model.lits(), cj, lj),
                    forall|lj: int| 0 <= lj < li ==> !#[trigger] decided_at(*theory, *formula, model.lits(), ci as int, lj),
                    forall|cj: int, lj: int|
                        0 <= cj < ci && 0 <= lj < formula.0@[cj].0@.len() && clause_value(formula.0@[cj].0@, model.lits())
                            != Some(true) && lit_value(#[trigger] formula.0@[cj].0@[lj], model.lits()) == None::<bool>
                            ==> theory.admits(formula.0@[cj].0@[lj]) && theory.admits(formula.0@[cj].0@[lj].neg()),
                    forall|lj: int|
                        0 <= lj < li && lit_value(#[trigger] formula.0@[ci as int].0@[lj], model.lits())
                            == None::<bool> ==> theory.admits(formula.0@[ci as int].0@[lj])
                            && theory.admits(formula.0@[ci as int].0@[lj].neg()),
                decreases lits@.len() - li,
            {
                let lit = lits[li];
                assert(lit == formula.0@[ci as int].0@[li as int]);
                assert(lit.wf());
                if lit.is_true_in(model).is_none() {
                    assert(has_atom(*formula, lit.id()));
                    assert(theory.decidable(lit));
                    match theory.decide(lit) {
                        Some(true) => {
                            assert(decided_at(*theory, *formula, model.lits(), ci as int, li as int));
                            return Some(lit);
                        },
                        Some(false) => {
                            let n = lit.negate();
                            assert(lit.neg().neg() == lit);
                            assert(decided_at(*theory, *formula, model.lits(), ci as int, li as int));
                            return Some(n);
                        },
                        None => {},
                    }
                }
                li = li + 1;
            }
        }
        ci = ci + 1;
    }
    None
}

/// The first unknown clause.
pub open spec fn first_unknown(f: Formula, t: Seq<Literal>, ci: int) -> bool {
    &&& 0 <= ci < f.0@.len()
    &&& clause_value(f.0@[ci].0@, t) == None::<bool>
    &&& forall|cj: int| 0 <= cj < ci ==> clause_value(#[trigger] f.0@[cj].0@, t) != None::<bool>
}

/// The first unassigned literal of clause `ci`.
pub open spec fn first_unassigned(f: Formula, t: Seq<Literal>, ci: int, li: int) -> bool {
    &&& 0 <= li < f.0@[ci].0@.len()
    &&& lit_value(f.0@[ci].0@[li], t) == None::<bool>
    &&& forall|lj: int| 0 <= lj < li ==> lit_value(#[trigger] f.0@[ci].0@[lj], t) != None::<bool>
}

/// Pick the first unassigned literal of the first unknown clause, and
/// return the positive literal of its atom.
fn do_decision(model: &Model, formula: &Formula) -> (r: Option<Literal>)
    requires
        formula.wf(),
    ensures
        r matches Some(l) ==> exists|ci: int, li: int|
            first_unknown(*formula, model.lits(), ci) && #[trigger] first_unassigned(*formula, model.lits(), ci, li)
                && l.0 == formula.0@[ci].0@[li].id(),
        r is None <==> forall|ci: int| 0 <= ci < formula.0@.len()
            ==> clause_value(#[trigger] formula.0@[ci].0@, model.lits()) != None::<bool>,
        r matches Some(l) ==> exists|ci: int, li: int|
            0 <= ci < formula.0@.len() && 0 <= li < formula.0@[ci].0@.len()
                && lit_value(#[trigger] formula.0@[ci].0@[li], model.lits()) == None::<bool>
                && l.0 == formula.0@[ci].0@[li].id(),
{
    let clauses = &formula.0;
    let mut ci: usize = 0;
    while ci < clauses.len()
        invariant
            formula.wf(),
            clauses@ == formula.0@,
            ci <= clauses@.len(),
            forall|cj: int| 0 <= cj < ci ==> clause_value(#[trigger] formula.0@[cj].0@, model.lits()) != None::<bool>,
        decreases clauses@.len() - ci,
    {
        let clause = &clauses[ci];
        assert(clause.wf());
        if clause.is_true_in(model).is_none() {
            let lits = &clause.0;
            let mut li: usize = 0;
            while li < lits.len()
                invariant
                    clause.wf(),
                    lits@ == clause.0@,
                    clause == formula.0@[ci as int],
                    ci < formula.0@.len(),
                    li <= lits@.len(),
                    clause_value(clause.0@, model.lits()) == None::<bool>,
                    forall|cj: int| 0 <= cj < ci ==> clause_value(#[trigger] formula.0@[cj].0@, model.lits()) != None::<bool>,
                    forall|lj: int| 0 <= lj < li ==> lit_value(#[trigger] lits@[lj], model.lits()) != None::<bool>,
                decreases lits@.len() - li,
            {
                let lit = lits[li];
                if lit.is_true_in(model).is_none() {
                    assert(formula.0@[ci as int].0@[li as int] == lit);
                    assert(first_unknown(*formula, model.lits(), ci as int));
                    assert(first_unassigned(*formula, model.lits(), ci as int, li as int));
                    return Some(Literal::new(lit.get_id()));
                }
                li = li + 1;
            }
            assert forall|lj: int| 0 <= lj < lits@.len() implies lit_value(#[trigger] lits@[lj], model.lits()) == Some(false) by {
                assert(lit_value(lits@[lj], model.lits()) != None::<bool>);
            }
            assert(false);
        }
        ci = ci + 1;
    }
    None
}

/// Forget everything the theory was told, then tell it the trail again.
fn reset_theory<T: Theory>(theory: &mut T, model: &Model)
    requires
        old(theory).wf(),
        forall|i: int| 0 <= i < model@.len() ==> (#[trigger] model@[i]).0.wf()
            && old(theory).knows_atom(model@[i].0.id()) && old(theory).admits(model@[i].0),
    ensures
        final(theory).wf(),
        final(theory).silent() == old(theory).silent(),
        forall|a: int| #[trigger] final(theory).knows_atom(a) == old(theory).knows_atom(a),
        forall|l: Literal| #[trigger] final(theory).admits(l) == old(theory).admits(l),
        final(theory).asserted() == model.lits(),
        forall|w: Seq<Literal>| #[trigger] final(theory).accepts(w) == old(theory).accepts(w),
{
    let ghost t0 = *theory;
    theory.forget();
    assert(model.lits().subrange(0, 0) =~= theory.asserted());
    let lits = &model.0;
    let mut i: usize = 0;
    while i < lits.len()
        invariant
            lits@ == model@,
            i <= lits@.len(),
            forall|i: int| 0 <= i < model@.len() ==> (#[trigger] model@[i]).0.wf()
                && t0.knows_atom(model@[i].0.id()) && t0.admits(model@[i].0),
            theory.wf(),
            theory.silent() == t0.silent(),
            forall|a: int| #[trigger] theory.knows_atom(a) == t0.knows_atom(a),
            forall|l: Literal| #[trigger] theory.admits(l) == t0.admits(l),
            theory.asserted() == model.lits().subrange(0, i as int),
            forall|w: Seq<Literal>| #[trigger] theory.accepts(w) == t0.accepts(w),
        decreases lits@.len() - i,
    {
        let lit = lits[i].0;
        assert(model@[i as int].0 == lit);
        theory.incorporate(lit);
        assert(model.lits().subrange(0, i + 1) =~= model.lits().subrange(0, i as int).push(lit));
        i = i + 1;
    }
    assert(model.lits().subrange(0, lits@.len() as int) =~= model.lits());
}

// ---------------------------------------------------------------------
// The search loop
// ---------------------------------------------------------------------

/// Every trail entry is a well-formed literal on an atom of the formula,
/// no atom occurs twice, the theory admits every entry, and it admits the
/// flip of every decision.
pub open spec fn trail_ok<T: Theory>(f: Formula, th: T, m: Seq<(Literal, Provenance)>) -> bool {
    &&& distinct_atoms(m)
    &&& forall|i: int|
        0 <= i < m.len() ==> {
            &&& (#[trigger] m[i]).0.wf()
            &&& has_atom(f, m[i].0.id())
            &&& th.admits(m[i].0)
            &&& m[i].1 == Provenance::Decision ==> th.admits(m[i].0.neg())
        }
}

proof fn lemma_push_ok<T: Theory>(f: Formula, th: T, m: Seq<(Literal, Provenance)>, l: Literal, p: Provenance)
    requires
        trail_ok(f, th, m),
        l.wf(),
        has_atom(f, l.id()),
        th.admits(l),
        p == Provenance::Decision ==> th.admits(l.neg()),
        lit_value(l, trail_lits(m)) == None::<bool>,
    ensures
        trail_ok(f, th, m.push((l, p))),
{
    let m2 = m.push((l, p));
    assert forall|k: int| 0 <= k < m.len() implies (#[trigger] m[k]).0.id() != l.id() by {
        assert(trail_lits(m)[k] == m[k].0);
        if m[k].0.id() == l.id() {
            lemma_same_atom(m[k].0, l);
        }
    }
    assert forall|i: int, j: int| 0 <= i < m2.len() && 0 <= j < m2.len() && i != j implies (#[trigger] m2[i]).0.id() != (#[trigger] m2[j]).0.id() by {
        if i < m.len() && j < m.len() {
            assert(m2[i] == m[i] && m2[j] == m[j]);
        } else if i < m.len() {
            assert(m2[i] == m[i]);
        } else {
            assert(m2[j] == m[j]);
        }
    }
}

proof fn lemma_backjump_ok<T: Theory>(f: Formula, th: T, m: Seq<(Literal, Provenance)>, j: int)
    requires
        trail_ok(f, th, m),
        0 <= j < m.len(),
        m[j].1 == Provenance::Decision,
    ensures
        trail_ok(f, th, m.subrange(0, j).push((m[j].0.neg(), Provenance::Backjump))),
{
    let d = m[j].0;
    let m2 = m.subrange(0, j).push((d.neg(), Provenance::Backjump));
    assert forall|i: int, k: int| 0 <= i < m2.len() && 0 <= k < m2.len() && i != k implies (#[trigger] m2[i]).0.id() != (#[trigger] m2[k]).0.id() by {
        assert(m2[i].0.id() == m[i].0.id());
        assert(m2[k].0.id() == m[k].0.id());
    }
}

/// Adding an entry keeps what earlier entries were entailed by.
proof fn lemma_implied_push(f: Formula, m: Seq<(Literal, Provenance)>, e: (Literal, Provenance))
    requires
        implied(f, m),
        e.1 != Provenance::Decision ==> entailed(f, m.push(e), m.len() as int),
    ensures
        implied(f, m.push(e)),
{
    let m2 = m.push(e);
    assert forall|i: int| 0 <= i < m2.len() && m2[i].1 != Provenance::Decision implies #[trigger] entailed(f, m2, i) by {
        if i < m.len() {
            assert(entailed(f, m, i));
            assert forall|a: spec_fn(int) -> bool| #[trigger] formula_sat(a, f) && agrees_decisions(a, m2, i) implies lit_sat(a, m2[i].0) by {
                assert(agrees_decisions(a, m, i)) by {
                    assert forall|k: int| 0 <= k < i && (#[trigger] m[k]).1 == Provenance::Decision implies lit_sat(a, m[k].0) by {
                        assert(m2[k] == m[k]);
                    }
                }
            }
        }
    }
}

/// A literal whose clause has every other literal false is entailed.
proof fn lemma_unit_entailed(f: Formula, m: Seq<(Literal, Provenance)>, l: Literal, ci: int)
    requires
        f.wf(),
        implied(f, m),
        0 <= ci < f.0@.len(),
        forall|k: int| 0 <= k < f.0@[ci].0@.len() && f.0@[ci].0@[k] != l
            ==> lit_value(#[trigger] f.0@[ci].0@[k], trail_lits(m)) == Some(false),
    ensures
        entailed(f, m.push((l, Provenance::UnitPropagation)), m.len() as int),
{
    let m2 = m.push((l, Provenance::UnitPropagation));
    let c = f.0@[ci];
    assert forall|a: spec_fn(int) -> bool| #[trigger] formula_sat(a, f) && agrees_decisions(a, m2, m.len() as int) implies lit_sat(a, m2[m.len() as int].0) by {
        assert(agrees_decisions(a, m, m.len() as int)) by {
            assert forall|k: int| 0 <= k < m.len() && (#[trigger] m[k]).1 == Provenance::Decision implies lit_sat(a, m[k].0) by {
                assert(m2[k] == m[k]);
            }
        }
        lemma_follows_trail(f, m, a);
        assert(clause_sat(a, c));
        let k = choose|k: int| 0 <= k < c.0@.len() && lit_sat(a, #[trigger] c.0@[k]);
        if c.0@[k] != l {
            assert(lit_value(c.0@[k], trail_lits(m)) == Some(false));
            let q = choose|q: int| 0 <= q < trail_lits(m).len() && trail_lits(m)[q] == c.0@[k].neg();
            assert(lit_sat(a, m[q].0));
            assert(c.wf());
            lemma_lit_sat_neg(a, c.0@[k]);
        }
    }
}

/// Flipping the last decision after a conflict yields an entailed literal.
proof fn lemma_backjump_implied(f: Formula, m: Seq<(Literal, Provenance)>, j: int)
    requires
        f.wf(),
        implied(f, m),
        formula_value(f.0@, trail_lits(m)) == Some(false),
        j == last_decision(m),
        j >= 0,
        forall|i: int| 0 <= i < m.len() ==> (#[trigger] m[i]).0.wf(),
    ensures
        implied(f, m.subrange(0, j).push((m[j].0.neg(), Provenance::Backjump))),
{
    lemma_last_decision(m);
    let d = m[j].0;
    let p = m.subrange(0, j);
    let m2 = p.push((d.neg(), Provenance::Backjump));
    assert(implied(f, p)) by {
        assert forall|i: int| 0 <= i < p.len() && p[i].1 != Provenance::Decision implies #[trigger] entailed(f, p, i) by {
            assert(entailed(f, m, i));
            assert forall|a: spec_fn(int) -> bool| #[trigger] formula_sat(a, f) && agrees_decisions(a, p, i) implies lit_sat(a, p[i].0) by {
                assert(agrees_decisions(a, m, i)) by {
                    assert forall|k: int| 0 <= k < i && (#[trigger] m[k]).1 == Provenance::Decision implies lit_sat(a, m[k].0) by {
                        assert(p[k] == m[k]);
                    }
                }
            }
        }
    }
    assert(entailed(f, m2, j)) by {
        assert forall|a: spec_fn(int) -> bool| #[trigger] formula_sat(a, f) && agrees_decisions(a, m2, j) implies lit_sat(a, m2[j].0) by {
            lemma_lit_sat_neg(a, d);
            if !lit_sat(a, d.neg()) {
                assert(agrees_decisions(a, m, m.len() as int)) by {
                    assert forall|k: int| 0 <= k < m.len() && (#[trigger] m[k]).1 == Provenance::Decision implies lit_sat(a, m[k].0) by {
                        if k < j {
                            assert(m2[k] == m[k]);
                        }
                    }
                }
                lemma_follows_trail(f, m, a);
                lemma_conflict_unsat(f, m, a);
            }
        }
    }
    lemma_implied_push(f, p, (d.neg(), Provenance::Backjump));
}

/// Every literal of the list is true under the total assignment.
pub open spec fn agrees(m: Seq<Literal>, a: spec_fn(int) -> bool) -> bool {
    forall|x: Literal| #[trigger] m.contains(x) ==> lit_sat(a, x)
}

/// Every literal of the formula, or its negation, is in the list.
pub open spec fn covers(m: Seq<Literal>, f: Formula) -> bool {
    forall|ci: int, li: int|
        0 <= ci < f.0@.len() && 0 <= li < f.0@[ci].0@.len() ==> m.contains(#[trigger] f.0@[ci].0@[li]) || m.contains(
            f.0@[ci].0@[li].neg(),
        )
}

/// The theory accepts the literals that a total assignment makes true on
/// the atoms of the formula.
pub open spec fn admissible<T: Theory>(th: T, f: Formula, a: spec_fn(int) -> bool) -> bool {
    exists|m: Seq<Literal>| agrees(m, a) && covers(m, f) && #[trigger] th.accepts(m)
}

/// Every admissible model of the formula that follows the decisions before
/// position `i` makes the literal at position `i` true.
pub open spec fn entailed_t<T: Theory>(f: Formula, th: T, m: Seq<(Literal, Provenance)>, i: int) -> bool {
    forall|a: spec_fn(int) -> bool|
        #[trigger] formula_sat(a, f) && admissible(th, f, a) && agrees_decisions(a, m, i) ==> lit_sat(a, m[i].0)
}

/// Every literal on the trail that is not a decision is forced by the
/// formula, the theory and the decisions before it.
pub open spec fn implied_t<T: Theory>(f: Formula, th: T, m: Seq<(Literal, Provenance)>) -> bool {
    forall|i: int| 0 <= i < m.len() && m[i].1 != Provenance::Decision ==> #[trigger] entailed_t(f, th, m, i)
}

proof fn lemma_follows_trail_t<T: Theory>(f: Formula, th: T, m: Seq<(Literal, Provenance)>, a: spec_fn(int) -> bool)
    requires
        implied_t(f, th, m),
        formula_sat(a, f),
        admissible(th, f, a),
        agrees_decisions(a, m, m.len() as int),
    ensures
        forall|i: int| 0 <= i < m.len() ==> lit_sat(a, (#[trigger] m[i]).0),
{
    assert forall|i: int| 0 <= i < m.len() implies lit_sat(a, (#[trigger] m[i]).0) by {
        if m[i].1 != Provenance::Decision {
            assert(entailed_t(f, th, m, i));
            assert(agrees_decisions(a, m, i));
        }
    }
}

/// A list that agrees with an assignment and covers the formula holds
/// every trail literal the assignment makes true.
proof fn lemma_witness_includes<T: Theory>(f: Formula, th: T, m: Seq<(Literal, Provenance)>, a: spec_fn(int) -> bool, w: Seq<Literal>)
    requires
        trail_ok(f, th, m),
        f.wf(),
        forall|i: int| 0 <= i < m.len() ==> lit_sat(a, (#[trigger] m[i]).0),
        agrees(w, a),
        covers(w, f),
    ensures
        includes(w, trail_lits(m)),
{
    assert forall|x: Literal| #[trigger] trail_lits(m).contains(x) implies w.contains(x) by {
        let i = choose|i: int| 0 <= i < trail_lits(m).len() && trail_lits(m)[i] == x;
        assert(m[i].0 == x);
        assert(has_atom(f, x.id()));
        let (ci, li) = choose|ci: int, li: int| 0 <= ci < f.0@.len() && 0 <= li < f.0@[ci].0@.len() && (#[trigger] f.0@[ci].0@[li]).id() == x.id();
        let o = f.0@[ci].0@[li];
        assert(f.0@[ci].wf());
        lemma_same_atom(x, o);
        lemma_lit_sat_neg(a, x);
        assert(o.neg().neg() == o);
        if !w.contains(x) {
            assert(w.contains(x.neg()));
        }
    }
}

proof fn lemma_implied_t_push<T: Theory>(f: Formula, th: T, m: Seq<(Literal, Provenance)>, e: (Literal, Provenance))
    requires
        implied_t(f, th, m),
        e.1 != Provenance::Decision ==> entailed_t(f, th, m.push(e), m.len() as int),
    ensures
        implied_t(f, th, m.push(e)),
{
    let m2 = m.push(e);
    assert forall|i: int| 0 <= i < m2.len() && m2[i].1 != Provenance::Decision implies #[trigger] entailed_t(f, th, m2, i) by {
        if i < m.len() {
            assert(entailed_t(f, th, m, i));
            assert forall|a: spec_fn(int) -> bool| #[trigger] formula_sat(a, f) && admissible(th, f, a) && agrees_decisions(a, m2, i) implies lit_sat(a, m2[i].0) by {
                assert(agrees_decisions(a, m, i)) by {
                    assert forall|k: int| 0 <= k < i && (#[trigger] m[k]).1 == Provenance::Decision implies lit_sat(a, m[k].0) by {
                        assert(m2[k] == m[k]);
                    }
                }
            }
        }
    }
}

proof fn lemma_unit_entailed_t<T: Theory>(f: Formula, th: T, m: Seq<(Literal, Provenance)>, l: Literal, ci: int)
    requires
        f.wf(),
        implied_t(f, th, m),
        0 <= ci < f.0@.len(),
        forall|k: int| 0 <= k < f.0@[ci].0@.len() && f.0@[ci].0@[k] != l
            ==> lit_value(#[trigger] f.0@[ci].0@[k], trail_lits(m)) == Some(false),
    ensures
        entailed_t(f, th, m.push((l, Provenance::UnitPropagation)), m.len() as int),
{
    let m2 = m.push((l, Provenance::UnitPropagation));
    let c = f.0@[ci];
    assert forall|a: spec_fn(int) -> bool| #[trigger] formula_sat(a, f) && admissible(th, f, a) && agrees_decisions(a, m2, m.len() as int) implies lit_sat(a, m2[m.len() as int].0) by {
        assert(agrees_decisions(a, m, m.len() as int)) by {
            assert forall|k: int| 0 <= k < m.len() && (#[trigger] m[k]).1 == Provenance::Decision implies lit_sat(a, m[k].0) by {
                assert(m2[k] == m[k]);
            }
        }
        lemma_follows_trail_t(f, th, m, a);
        assert(clause_sat(a, c));
        let k = choose|k: int| 0 <= k < c.0@.len() && lit_sat(a, #[trigger] c.0@[k]);
        if c.0@[k] != l {
            assert(lit_value(c.0@[k], trail_lits(m)) == Some(false));
            let q = choose|q: int| 0 <= q < trail_lits(m).len() && trail_lits(m)[q] == c.0@[k].neg();
            assert(lit_sat(a, m[q].0));
            assert(c.wf());
            lemma_lit_sat_neg(a, c.0@[k]);
        }
    }
}

proof fn lemma_theory_entailed_t<T: Theory>(f: Formula, th: T, m: Seq<(Literal, Provenance)>, x: Literal, ci: int, li: int)
    requires
        f.wf(),
        trail_ok(f, th, m),
        implied_t(f, th, m),
        0 <= ci < f.0@.len(),
        0 <= li < f.0@[ci].0@.len(),
        x == f.0@[ci].0@[li] || x == f.0@[ci].0@[li].neg(),
        forall|w: Seq<Literal>| #[trigger] th.accepts(w) && includes(w, trail_lits(m)) ==> !w.contains(x.neg()),
    ensures
        entailed_t(f, th, m.push((x, Provenance::TheoryPropagation)), m.len() as int),
{
    let m2 = m.push((x, Provenance::TheoryPropagation));
    let o = f.0@[ci].0@[li];
    assert(f.0@[ci].wf());
    assert forall|a: spec_fn(int) -> bool| #[trigger] formula_sat(a, f) && admissible(th, f, a) && agrees_decisions(a, m2, m.len() as int) implies lit_sat(a, m2[m.len() as int].0) by {
        assert(agrees_decisions(a, m, m.len() as int)) by {
            assert forall|k: int| 0 <= k < m.len() && (#[trigger] m[k]).1 == Provenance::Decision implies lit_sat(a, m[k].0) by {
                assert(m2[k] == m[k]);
            }
        }
        lemma_follows_trail_t(f, th, m, a);
        let w = choose|w: Seq<Literal>| agrees(w, a) && covers(w, f) && #[trigger] th.accepts(w);
        lemma_witness_includes(f, th, m, a, w);
        assert(!w.contains(x.neg()));
        assert(w.contains(o) || w.contains(o.neg()));
        assert(o.neg().neg() == o);
        assert(w.contains(x));
    }
}

proof fn lemma_backjump_implied_t<T: Theory>(f: Formula, th: T, m: Seq<(Literal, Provenance)>, j: int)
    requires
        f.wf(),
        trail_ok(f, th, m),
        implied_t(f, th, m),
        formula_value(f.0@, trail_lits(m)) == Some(false) || forall|w: Seq<Literal>|
            #[trigger] th.accepts(w) ==> !includes(w, trail_lits(m)),
        j == last_decision(m),
        j >= 0,
    ensures
        implied_t(f, th, m.subrange(0, j).push((m[j].0.neg(), Provenance::Backjump))),
{
    lemma_last_decision(m);
    let d = m[j].0;
    let p = m.subrange(0, j);
    let m2 = p.push((d.neg(), Provenance::Backjump));
    assert(implied_t(f, th, p)) by {
        assert forall|i: int| 0 <= i < p.len() && p[i].1 != Provenance::Decision implies #[trigger] entailed_t(f, th, p, i) by {
            assert(entailed_t(f, th, m, i));
            assert forall|a: spec_fn(int) -> bool| #[trigger] formula_sat(a, f) && admissible(th, f, a) && agrees_decisions(a, p, i) implies lit_sat(a, p[i].0) by {
                assert(agrees_decisions(a, m, i)) by {
                    assert forall|k: int| 0 <= k < i && (#[trigger] m[k]).1 == Provenance::Decision implies lit_sat(a, m[k].0) by {
                        assert(p[k] == m[k]);
                    }
                }
            }
        }
    }
    assert(entailed_t(f, th, m2, j)) by {
        assert forall|a: spec_fn(int) -> bool| #[trigger] formula_sat(a, f) && admissible(th, f, a) && agrees_decisions(a, m2, j) implies lit_sat(a, m2[j].0) by {
            lemma_lit_sat_neg(a, d);
            if !lit_sat(a, d.neg()) {
                assert(agrees_decisions(a, m, m.len() as int)) by {
                    assert forall|k: int| 0 <= k < m.len() && (#[trigger] m[k]).1 == Provenance::Decision implies lit_sat(a, m[k].0) by {
                        if k < j {
                            assert(m2[k] == m[k]);
                        }
                    }
                }
                lemma_follows_trail_t(f, th, m, a);
                lemma_trail_contradiction(f, th, m, a);
            }
        }
    }
    lemma_implied_t_push(f, th, p, (d.neg(), Provenance::Backjump));
}

/// An admissible model of the formula that makes every literal of a trail
/// true rules out a conflict on that trail.
proof fn lemma_trail_contradiction<T: Theory>(f: Formula, th: T, m: Seq<(Literal, Provenance)>, a: spec_fn(int) -> bool)
    requires
        f.wf(),
        trail_ok(f, th, m),
        formula_sat(a, f),
        admissible(th, f, a),
        forall|i: int| 0 <= i < m.len() ==> lit_sat(a, (#[trigger] m[i]).0),
    ensures
        !(formula_value(f.0@, trail_lits(m)) == Some(false) || forall|w: Seq<Literal>|
            #[trigger] th.accepts(w) ==> !includes(w, trail_lits(m))),
{
    if formula_value(f.0@, trail_lits(m)) == Some(false) {
        lemma_conflict_unsat(f, m, a);
    } else {
        let w = choose|w: Seq<Literal>| agrees(w, a) && covers(w, f) && #[trigger] th.accepts(w);
        lemma_witness_includes(f, th, m, a, w);
    }
}

proof fn lemma_trail_lits_push(m: Seq<(Literal, Provenance)>, l: Literal)
    ensures
        forall|p: Provenance| #[trigger] trail_lits(m.push((l, p))) == trail_lits(m).push(l),
        forall|x: Seq<Literal>| #[trigger] (x + trail_lits(m)).push(l) == x + trail_lits(m).push(l),
{
    assert forall|p: Provenance| #[trigger] trail_lits(m.push((l, p))) == trail_lits(m).push(l) by {
        assert(trail_lits(m.push((l, p))) =~= trail_lits(m).push(l));
    }
    assert forall|x: Seq<Literal>| #[trigger] (x + trail_lits(m)).push(l) == x + trail_lits(m).push(l) by {
        assert((x + trail_lits(m)).push(l) =~= x + trail_lits(m).push(l));
    }
}

/// Given a formula, find a model which satisfies it if one exists.
///
/// A model that comes back holds a literal of every clause and never a
/// literal together with its negation, and the theory agrees with it.  A
/// conflict is a false formula or a theory that reports an inconsistency;
/// it is resolved by flipping the most recent decision, and with no
/// decision left the formula is unsatisfiable.  With a theory that never
/// decides anything, that verdict is exact: no assignment satisfies the
/// formula.
#[verifier::rlimit(100)]
pub fn dpll<T: Theory>(theory: &mut T, formula: Formula) -> (r: Option<Model>)
    requires
        old(theory).wf(),
        formula.wf(),
        forall|x: int| has_atom(formula, x) ==> old(theory).knows_atom(x),
    ensures
        final(theory).wf(),
        r matches Some(m) ==> satisfied_by(formula, m.lits()) && consistent(m.lits())
            && final(theory).consistent(),
        r matches Some(m) ==> distinct_atoms(m@) && forall|i: int|
            0 <= i < m@.len() ==> has_atom(formula, (#[trigger] m@[i]).0.id()),
        r matches Some(m) ==> final(theory).asserted() == m.lits() || final(theory).asserted()
            == old(theory).asserted() + m.lits(),
        old(theory).asserted().len() == 0 ==> (r matches Some(m) ==> final(theory).asserted() == m.lits()),
        formula.0@.len() == 0 && old(theory).consistent() ==> (r matches Some(m) && m@.len() == 0),
        old(theory).silent() && r is None ==> !satisfiable(formula),
        old(theory).asserted().len() == 0 ==> (r matches Some(m) ==> old(theory).accepts(m.lits())),
        old(theory).asserted().len() == 0 && r is None ==> forall|a: spec_fn(int) -> bool, w: Seq<Literal>|
            #![trigger old(theory).accepts(w), formula_sat(a, formula)]
            formula_sat(a, formula) && agrees(w, a) && covers(w, formula) ==> !old(theory).accepts(w),
{
    let ghost t0 = *theory;
    let ghost mut reset = false;
    let ghost n = atoms(formula).len();
    let mut model = Model::new();
    proof {
        lemma_trail_bound(formula, model@);
        lemma_rank_bound(model@, n);
    }
    loop
        invariant
            formula.wf(),
            theory.wf(),
            t0 == *old(theory),
            theory.silent() == t0.silent(),
            forall|a: int| #[trigger] theory.knows_atom(a) == t0.knows_atom(a),
            forall|l: Literal| #[trigger] theory.admits(l) == t0.admits(l),
            forall|x: int| has_atom(formula, x) ==> t0.knows_atom(x),
            n == atoms(formula).len(),
            trail_ok(formula, t0, model@),
            t0.silent() ==> implied(formula, model@),
            t0.asserted().len() == 0 ==> implied_t(formula, t0, model@),
            forall|w: Seq<Literal>| #[trigger] theory.accepts(w) == t0.accepts(w),
            rank(model@, n) < pow3(n),
            theory.asserted() == (if reset {
                Seq::<Literal>::empty()
            } else {
                t0.asserted()
            }) + model.lits(),
            formula.0@.len() == 0 && t0.consistent() ==> model@.len() == 0 && theory.consistent(),
        decreases pow3(n) - rank(model@, n),
    {
        proof {
            lemma_trail_bound(formula, model@);
        }
        let ghost m = model@;
        let value = formula.is_true_in(&model);
        let ok = theory.is_consistent();
        if ok && matches!(value, Some(true)) {
            proof {
                lemma_formula_value(formula.0@, model.lits());
                assert forall|i: int| 0 <= i < formula.0@.len() implies clause_holds(#[trigger] formula.0@[i], model.lits()) by {
                    assert(clause_value(formula.0@[i].0@, model.lits()) == Some(true));
                }
                assert forall|l: Literal| #[trigger] model.lits().contains(l) implies !model.lits().contains(l.neg()) by {
                    let k1 = choose|k: int| 0 <= k < model.lits().len() && model.lits()[k] == l;
                    if model.lits().contains(l.neg()) {
                        let k2 = choose|k: int| 0 <= k < model.lits().len() && model.lits()[k] == l.neg();
                        assert(m[k1].0 == l && m[k2].0 == l.neg());
                        assert(l.wf());
                        assert(m[k1].0.id() == m[k2].0.id());
                    }
                }
            }
            proof {
                if t0.asserted().len() == 0 {
                    assert(theory.asserted() =~= model.lits());
                    assert(theory.accepts(model.lits()));
                }
            }
            return Some(model);
        }
        if !ok || matches!(value, Some(false)) {
            proof {
                if t0.asserted().len() == 0 {
                    assert(theory.asserted() =~= trail_lits(m));
                    if !ok {
                        assert forall|w: Seq<Literal>| #[trigger] t0.accepts(w) implies !includes(w, trail_lits(m)) by {
                            assert(theory.accepts(w));
                        }
                    }
                }
            }
            if do_backjump(&mut model) {
                proof {
                    let j = last_decision(m);
                    lemma_last_decision(m);
                    lemma_backjump_ok(formula, t0, m, j);
                    if t0.silent() {
                        lemma_backjump_implied(formula, m, j);
                    }
                    if t0.asserted().len() == 0 {
                        lemma_backjump_implied_t(formula, t0, m, j);
                    }
                    lemma_trail_bound(formula, m);
                    lemma_rank_backjump(m, j, (m[j].0.neg(), Provenance::Backjump), n);
                    lemma_trail_bound(formula, model@);
                    lemma_rank_bound(model@, n);
                }
                reset_theory(theory, &model);
                proof {
                    reset = true;
                    assert(theory.asserted() =~= Seq::<Literal>::empty() + model.lits());
                }
            } else {
                proof {
                    if t0.silent() {
                        lemma_last_decision(m);
                        assert forall|a: spec_fn(int) -> bool| !formula_sat(a, formula) by {
                            if formula_sat(a, formula) {
                                lemma_follows_trail(formula, m, a);
                                lemma_conflict_unsat(formula, m, a);
                            }
                        }
                    }
                    if t0.asserted().len() == 0 {
                        lemma_last_decision(m);
                        assert forall|a: spec_fn(int) -> bool, w: Seq<Literal>|
                            #![trigger t0.accepts(w), formula_sat(a, formula)]
                            formula_sat(a, formula) && agrees(w, a) && covers(w, formula) implies !t0.accepts(w) by {
                            if formula_sat(a, formula) && agrees(w, a) && covers(w, formula) && t0.accepts(w) {
                                assert(admissible(t0, formula, a));
                                lemma_follows_trail_t(formula, t0, m, a);
                                lemma_trail_contradiction(formula, t0, m, a);
                            }
                        }
                    }
                }
                return None;
            }
        } else if let Some(lit) = do_theory_propagation(theory, &model, &formula) {
            model.append(lit, Provenance::TheoryPropagation);
            proof {
                if t0.asserted().len() == 0 {
                    assert(theory.asserted() =~= trail_lits(m));
                    let (ci, li) = choose|ci: int, li: int|
                        #[trigger] decided_at(*theory, formula, trail_lits(m), ci, li) && lit == (if theory.verdict(
                            formula.0@[ci].0@[li],
                        ) == Some(true) {
                            formula.0@[ci].0@[li]
                        } else {
                            formula.0@[ci].0@[li].neg()
                        }) && forall|cj: int, lj: int| before(cj, lj, ci, li) ==> !#[trigger] decided_at(
                            *theory,
                            formula,
                            trail_lits(m),
                            cj,
                            lj,
                        );
                    assert forall|w: Seq<Literal>| #[trigger] t0.accepts(w) && includes(w, trail_lits(m)) implies !w.contains(lit.neg()) by {
                        assert(theory.accepts(w));
                    }
                    lemma_theory_entailed_t(formula, t0, m, lit, ci, li);
                    lemma_implied_t_push(formula, t0, m, (lit, Provenance::TheoryPropagation));
                }
                lemma_push_ok(formula, t0, m, lit, Provenance::TheoryPropagation);
                lemma_trail_bound(formula, m.push((lit, Provenance::TheoryPropagation)));
                lemma_rank_push(m, (lit, Provenance::TheoryPropagation), n);
                lemma_trail_bound(formula, model@);
                lemma_rank_bound(model@, n);
            }
            theory.incorporate(lit);
            proof {
                lemma_trail_lits_push(m, lit);
            }
        } else if let Some(lit) = do_unit_propagation(&model, &formula) {
            proof {
                let (ci, li) = choose|ci: int, li: int|
                    0 <= ci < formula.0@.len() && 0 <= li < formula.0@[ci].0@.len()
                        && #[trigger] formula.0@[ci].0@[li] == lit
                        && lit_value(lit, model.lits()) == None::<bool>
                        && forall|k: int| 0 <= k < formula.0@[ci].0@.len() && formula.0@[ci].0@[k] != lit
                            ==> lit_value(#[trigger] formula.0@[ci].0@[k], model.lits()) == Some(false);
                assert(formula.0@[ci].wf());
                assert(has_atom(formula, lit.id()));
                lemma_push_ok(formula, t0, m, lit, Provenance::UnitPropagation);
                if t0.silent() {
                    lemma_unit_entailed(formula, m, lit, ci);
                    lemma_implied_push(formula, m, (lit, Provenance::UnitPropagation));
                }
                if t0.asserted().len() == 0 {
                    lemma_unit_entailed_t(formula, t0, m, lit, ci);
                    lemma_implied_t_push(formula, t0, m, (lit, Provenance::UnitPropagation));
                }
                lemma_trail_bound(formula, m.push((lit, Provenance::UnitPropagation)));
                lemma_rank_push(m, (lit, Provenance::UnitPropagation), n);
            }
            model.append(lit, Provenance::UnitPropagation);
            proof {
                lemma_trail_bound(formula, model@);
                lemma_rank_bound(model@, n);
            }
            theory.incorporate(lit);
            proof {
                lemma_trail_lits_push(m, lit);
            }
        } else if let Some(lit) = do_decision(&model, &formula) {
            proof {
                let (ci, li) = choose|ci: int, li: int|
                    0 <= ci < formula.0@.len() && 0 <= li < formula.0@[ci].0@.len()
                        && lit_value(#[trigger] formula.0@[ci].0@[li], model.lits()) == None::<bool>
                        && lit.0 == formula.0@[ci].0@[li].id();
                let x = formula.0@[ci].0@[li];
                assert(formula.0@[ci].wf());
                assert(has_atom(formula, lit.id()));
                assert(lit == x || lit == x.neg());
                assert(x.neg().neg() == x);
                assert(lit_value(lit, model.lits()) == None::<bool>);
                lemma_push_ok(formula, t0, m, lit, Provenance::Decision);
                if t0.silent() {
                    lemma_implied_push(formula, m, (lit, Provenance::Decision));
                }
                if t0.asserted().len() == 0 {
                    lemma_implied_t_push(formula, t0, m, (lit, Provenance::Decision));
                }
                lemma_trail_bound(formula, m.push((lit, Provenance::Decision)));
                lemma_rank_push(m, (lit, Provenance::Decision), n);
            }
            model.append(lit, Provenance::Decision);
            proof {
                lemma_trail_bound(formula, model@);
                lemma_rank_bound(model@, n);
            }
            theory.incorporate(lit);
            proof {
                lemma_trail_lits_push(m, lit);
            }
        } else {
            proof {
                lemma_formula_value(formula.0@, model.lits());
            }
            return None;
        }
    }
}

} // verus!
