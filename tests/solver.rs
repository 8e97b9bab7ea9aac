use sat::cnf::{Clause, Formula, Literal};
use sat::dimacs;
use sat::dpll::{dpll, Model, Provenance};
use sat::theory::empty::EmptyTheory;
use sat::theory::euf::{EUFLiteral, EUFTerm, EUF};
use sat::theory::Theory;
use sat::{sat, sat_assignment, smt, smt_assignment};

#[test]
fn simple_sat_1() {
    assert!(sat(Formula::new(vec![Clause::new(vec![1])])));
}

#[test]
fn simple_sat_2() {
    assert!(sat(Formula::new(vec![Clause::new(vec![1, 2])])));
}

#[test]
fn simple_sat_2b() {
    assert!(sat(Formula::new(vec![
        Clause::new(vec![-1]),
        Clause::new(vec![1, -2]),
    ])));
}

#[test]
fn simple_sat_3() {
    assert!(sat(Formula::new(vec![
        Clause::new(vec![1, 2]),
        Clause::new(vec![3])
    ])));
}

#[test]
fn simple_unsat_1() {
    assert!(!sat(Formula::new(vec![
        Clause::new(vec![1]),
        Clause::new(vec![-1])
    ])));
}

#[test]
fn simple_unsat_2() {
    assert!(!sat(Formula::new(vec![
        Clause::new(vec![1]),
        Clause::new(vec![2]),
        Clause::new(vec![-1, -2]),
    ])));
}

#[test]
fn complex_sat_7() {
    assert!(sat(Formula::new(vec![
        Clause::new(vec![-3, 4]),
        Clause::new(vec![-1, -3, -5]),
        Clause::new(vec![-2, -4, -5]),
        Clause::new(vec![-2, 3, 5, -6]),
        Clause::new(vec![-1, 2]),
        Clause::new(vec![-1, 3, -5, -6]),
        Clause::new(vec![1, -6]),
        Clause::new(vec![1, 7]),
    ])));
}

fn euf_bindings(fourth: EUFLiteral) -> EUF {
    EUF::new(vec![
        EUFLiteral::new(
            EUFTerm::ap(1, vec![EUFTerm::atom(1), EUFTerm::atom(2)]),
            EUFTerm::atom(1),
        ),
        EUFLiteral::new(
            EUFTerm::ap(1, vec![EUFTerm::atom(2)]),
            EUFTerm::ap(2, vec![EUFTerm::atom(1)]),
        ),
        EUFLiteral::new(
            EUFTerm::ap(
                1,
                vec![
                    EUFTerm::ap(1, vec![EUFTerm::atom(1), EUFTerm::atom(2)]),
                    EUFTerm::atom(2),
                ],
            ),
            EUFTerm::atom(3),
        ),
        fourth,
    ])
}

#[test]
fn euf_unsat_atoms() {
    let formula = Formula::new(vec![
        Clause::new(vec![1]),
        Clause::new(vec![2]),
        Clause::new(vec![3]),
        Clause::new(vec![-4]),
    ]);
    let mut euf = euf_bindings(EUFLiteral::new(EUFTerm::atom(1), EUFTerm::atom(3)));

    assert!(sat(formula.clone()));
    assert!(!smt(&mut euf, formula));
}

#[test]
fn euf_unsat_functions() {
    let formula = Formula::new(vec![
        Clause::new(vec![1]),
        Clause::new(vec![2]),
        Clause::new(vec![3]),
        Clause::new(vec![-4]),
    ]);
    let mut euf = euf_bindings(EUFLiteral::new(
        EUFTerm::ap(2, vec![EUFTerm::atom(1)]),
        EUFTerm::ap(2, vec![EUFTerm::atom(3)]),
    ));

    assert!(sat(formula.clone()));
    assert!(!smt(&mut euf, formula));
}

#[test]
fn euf_sat_functions() {
    let formula = Formula::new(vec![
        Clause::new(vec![1]),
        Clause::new(vec![2]),
        Clause::new(vec![3]),
        Clause::new(vec![-4, 4]),
    ]);
    let mut euf = euf_bindings(EUFLiteral::new(
        EUFTerm::ap(2, vec![EUFTerm::atom(1)]),
        EUFTerm::ap(2, vec![EUFTerm::atom(3)]),
    ));

    assert!(sat(formula.clone()));
    assert!(smt(&mut euf, formula));
}

#[test]
fn euf_congruence_forces_the_equality() {
    let formula = Formula::new(vec![
        Clause::new(vec![1]),
        Clause::new(vec![2]),
        Clause::new(vec![3]),
        Clause::new(vec![-4, 4]),
    ]);
    let mut euf = euf_bindings(EUFLiteral::new(EUFTerm::atom(1), EUFTerm::atom(3)));
    let lits = smt_assignment(&mut euf, formula).expect("satisfiable");
    assert!(lits.contains(&Literal(4)));
    assert!(!lits.contains(&Literal(-4)));
    assert_eq!(lits, vec![Literal(1), Literal(2), Literal(3), Literal(4)]);
}

fn parse_and_solve(text: &str) -> Option<Vec<Literal>> {
    let formula = dimacs::from_string(text.to_string()).expect("parses");
    sat_assignment(formula)
}

#[test]
fn single_unit_clause_is_satisfied() {
    let lits = parse_and_solve("p cnf 1 1 \n 1 0").expect("satisfiable");
    assert!(lits.contains(&Literal(1)));
    assert_eq!(lits, vec![Literal(1)]);
}

#[test]
fn clause_and_its_negation_are_unsatisfiable() {
    assert_eq!(parse_and_solve("p cnf 1 2 \n 1 0 \n -1 0"), None);
}

#[test]
fn two_units_against_a_binary_clause_are_unsatisfiable() {
    assert_eq!(parse_and_solve("p cnf 2 3 \n 1 0 \n 2 0 \n -1 -2 0"), None);
}

#[test]
fn unit_propagation_assigns_both_negatively() {
    let lits = parse_and_solve("p cnf 2 2 \n -1 0 \n 1 -2 0").expect("satisfiable");
    assert!(lits.contains(&Literal(-1)));
    assert!(lits.contains(&Literal(-2)));
    assert_eq!(lits, vec![Literal(-1), Literal(-2)]);
}

#[test]
fn seven_variable_example_is_satisfiable() {
    let text = "p cnf 7 8\n-3 4 0\n-1 -3 -5 0\n-2 -4 -5 0\n-2 3 5 -6 0\n-1 2 0\n-1 3 -5 -6 0\n1 -6 0\n1 7 0";
    let lits = parse_and_solve(text).expect("satisfiable");
    let formula = dimacs::from_string(text.to_string()).unwrap();
    for clause in &formula.0 {
        assert!(clause.0.iter().any(|l| lits.contains(l)));
    }
}

#[test]
fn empty_formula_is_satisfiable() {
    assert_eq!(sat_assignment(Formula::new(vec![])), Some(vec![]));
}

#[test]
fn empty_clause_is_unsatisfiable() {
    assert!(!sat(Formula::new(vec![Clause::new(vec![])])));
}

#[test]
fn models_hold_no_literal_with_its_negation() {
    let formula = Formula::new(vec![
        Clause::new(vec![1, 2, 3]),
        Clause::new(vec![-1, -2]),
        Clause::new(vec![-2, -3]),
        Clause::new(vec![-1, -3]),
        Clause::new(vec![2, 3]),
    ]);
    let lits = sat_assignment(formula.clone()).expect("satisfiable");
    for l in &lits {
        assert!(!lits.contains(&l.negate()));
    }
    for clause in &formula.0 {
        assert!(clause.0.iter().any(|l| lits.contains(l)));
    }
}

#[test]
fn unsatisfiable_verdicts_hold_for_every_assignment() {
    // all eight clauses over three atoms: no assignment escapes
    let mut clauses = Vec::new();
    for mask in 0..8isize {
        let c: Vec<isize> = (0..3isize)
            .map(|i| if mask & (1 << i) != 0 { i + 1 } else { -(i + 1) })
            .collect();
        clauses.push(Clause::new(c));
    }
    let formula = Formula::new(clauses.clone());
    assert!(!sat(formula));
    // and each proper subset is satisfiable, as exhaustive search confirms
    for skip in 0..8usize {
        let part: Vec<Clause> = clauses
            .iter()
            .enumerate()
            .filter(|(k, _)| *k != skip)
            .map(|(_, c)| c.clone())
            .collect();
        let any = (0..8isize).any(|a| {
            part.iter().all(|c| {
                c.0.iter().any(|l| {
                    let v = a & (1 << (l.get_id() - 1)) != 0;
                    if l.is_negated() { !v } else { v }
                })
            })
        });
        assert!(any);
        assert!(sat(Formula::new(part)));
    }
}

#[test]
fn dpll_returns_a_trail_meeting_every_clause() {
    let formula = Formula::new(vec![Clause::new(vec![1, 2]), Clause::new(vec![-1])]);
    let model = dpll(&mut EmptyTheory::new(), formula).expect("satisfiable");
    assert_eq!(model.get_assignments(), vec![Literal(-1), Literal(2)]);
}

#[test]
fn literal_negation_is_an_involution() {
    for n in [1isize, -1, 7, -42, isize::MAX, -isize::MAX] {
        let l = Literal::new(n);
        assert_eq!(l.negate().negate(), l);
        assert_eq!(l.get_id(), l.negate().get_id());
        assert!(l.get_id() > 0);
        assert_eq!(l.is_negated(), n < 0);
    }
}

#[test]
fn evaluation_grows_with_the_trail() {
    let lit = Literal::new(2);
    let clause = Clause::new(vec![1, 2]);
    let formula = Formula::new(vec![clause.clone(), Clause::new(vec![-3])]);
    let mut model = Model::new();
    assert_eq!(lit.is_true_in(&model), None);
    assert_eq!(clause.is_true_in(&model), None);
    assert_eq!(formula.is_true_in(&model), None);
    model.append(Literal::new(-1), Provenance::Decision);
    assert_eq!(clause.is_true_in(&model), None);
    model.append(Literal::new(2), Provenance::UnitPropagation);
    assert_eq!(lit.is_true_in(&model), Some(true));
    assert_eq!(lit.negate().is_true_in(&model), Some(false));
    assert_eq!(clause.is_true_in(&model), Some(true));
    assert_eq!(formula.is_true_in(&model), None);
    model.append(Literal::new(3), Provenance::Decision);
    assert_eq!(formula.is_true_in(&model), Some(false));
    model.append(Literal::new(4), Provenance::Decision);
    assert_eq!(clause.is_true_in(&model), Some(true));
    assert_eq!(formula.is_true_in(&model), Some(false));
}

#[test]
fn clause_and_formula_builders_append() {
    let mut c = Clause::new(vec![1]);
    c.insert_literal(Literal::new(-2));
    assert_eq!(c, Clause::new(vec![1, -2]));
    let mut f = Formula::new(vec![]);
    f.insert_clause(c.clone());
    assert_eq!(f, Formula::new(vec![Clause::new(vec![1, -2])]));
}

#[test]
fn empty_theory_decides_nothing() {
    let mut t = EmptyTheory::new();
    assert_eq!(t.decide(Literal(3)), None);
    t.incorporate(Literal(3));
    assert_eq!(t.decide(Literal(3)), None);
    t.forget();
    assert!(t.is_consistent());
}

#[test]
fn terms_and_literals_clone() {
    let t = EUFTerm::ap(3, vec![EUFTerm::atom(1), EUFTerm::ap(2, vec![])]);
    assert_eq!(t.clone(), t);
    let l = EUFLiteral::new(t.clone(), EUFTerm::atom(4)).negate();
    assert_eq!(l.clone(), l);
}

#[test]
fn asserting_literals_directly() {
    let mut euf = EUF::new(vec![
        EUFLiteral::new(EUFTerm::atom(1), EUFTerm::atom(2)),
        EUFLiteral::new(EUFTerm::atom(2), EUFTerm::atom(2)),
    ]);
    euf.assert_literal(Literal(2));
    assert_eq!(euf.decide(Literal(1)), None);
    euf.assert_literal(Literal(-1));
    assert_eq!(euf.decide(Literal(1)), Some(false));
    assert!(euf.is_consistent());
}
