use sat::parse::empty;
use sat::theory::empty::EmptyTheory;

#[test]
fn empty_parser_reads_dimacs() {
    let (mut theory, formula) = empty::from_string("p cnf 2 2\n1 2 0\n-1 0\n".to_string()).expect("parses");
    let lits = sat::smt_assignment(&mut theory, formula).expect("satisfiable");
    assert!(lits.contains(&sat::cnf::Literal(2)));
}

#[test]
fn empty_theory_parser_reports_errors() {
    assert!(EmptyTheory::from_string("p cnf 1 2\n1 0\n".to_string()).is_err());
    let (mut theory, formula) = EmptyTheory::from_string("p cnf 1 2\n1 0\n-1 0\n".to_string()).expect("parses");
    assert_eq!(sat::smt_assignment(&mut theory, formula), None);
}

const SAT_CASES: [&str; 3] = [
    "p cnf 1 1\n1 0\n",
    "c two atoms\np cnf 2 2\n-1 0\n1 -2 0\n",
    "p cnf 7 8\n-3 4 0\n-1 -3 -5 0\n-2 -4 -5 0\n-2 3 5 -6 0\n-1 2 0\n-1 3 -5 -6 0\n1 -6 0\n1 7 0\n",
];

const UNSAT_CASES: [&str; 3] = [
    "p cnf 1 2\n1 0\n-1 0\n",
    "p cnf 2 3\n1 0\n2 0\n-1 -2 0\n",
    "p cnf 2 4\n1 2 0\n-1 2 0\n1 -2 0\n-1 -2 0\n",
];

#[test]
fn test_sat() {
    for input in SAT_CASES {
        match empty::from_string(input.to_string()) {
            Ok((mut theory, formula)) => {
                let clauses = formula.clone();
                let lits = sat::smt_assignment(&mut theory, formula).expect("expected SAT but got UNSAT");
                for clause in &clauses.0 {
                    assert!(clause.0.iter().any(|l| lits.contains(l)));
                }
            }
            Err(e) => panic!("{:?}", e),
        }
    }
}

#[test]
fn test_unsat() {
    for input in UNSAT_CASES {
        match empty::from_string(input.to_string()) {
            Ok((mut theory, formula)) => {
                assert_eq!(sat::smt_assignment(&mut theory, formula), None, "expected UNSAT but got SAT");
            }
            Err(e) => panic!("{:?}", e),
        }
    }
}
