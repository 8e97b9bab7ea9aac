use sat::cnf::{Clause, Formula, Literal};
use sat::parse::combinators::{eat_whitespace, parse_usize};
use sat::parse::euf::{from_string, ParseError};
use sat::theory::euf::{EUFLiteral, EUFTerm, EUF};
use sat::theory::Theory;
use sat::{smt, smt_assignment};

fn two_atoms() -> EUF {
    EUF::new(vec![
        EUFLiteral::new(EUFTerm::atom(1), EUFTerm::atom(2)),
        EUFLiteral::new(EUFTerm::atom(2), EUFTerm::atom(3)),
        EUFLiteral::new(EUFTerm::atom(1), EUFTerm::atom(3)),
        EUFLiteral::new(EUFTerm::atom(1), EUFTerm::atom(1)),
    ])
}

#[test]
fn a_term_equals_itself() {
    let t = two_atoms();
    assert_eq!(t.decide(Literal(4)), Some(true));
    assert_eq!(t.decide(Literal(-4)), Some(false));
}

#[test]
fn equalities_chain() {
    let mut t = two_atoms();
    assert_eq!(t.decide(Literal(3)), None);
    t.incorporate(Literal(1));
    t.incorporate(Literal(2));
    assert_eq!(t.decide(Literal(3)), Some(true));
    assert_eq!(t.decide(Literal(-3)), Some(false));
    assert!(t.is_consistent());
}

#[test]
fn disequalities_are_seen_through_equalities() {
    let mut t = two_atoms();
    t.incorporate(Literal(1));
    t.incorporate(Literal(-3));
    assert_eq!(t.decide(Literal(2)), Some(false));
    assert_eq!(t.decide(Literal(-2)), Some(true));
}

#[test]
fn forget_drops_everything() {
    let mut t = two_atoms();
    t.incorporate(Literal(1));
    t.incorporate(Literal(2));
    t.incorporate(Literal(-3));
    assert!(!t.is_consistent());
    t.forget();
    assert_eq!(t.decide(Literal(1)), None);
    assert_eq!(t.decide(Literal(3)), None);
    assert_eq!(t.decide(Literal(4)), Some(true));
    assert!(t.is_consistent());
}

#[test]
fn contradictions_are_reported() {
    let mut t = two_atoms();
    t.incorporate(Literal(-3));
    t.incorporate(Literal(1));
    assert!(t.is_consistent());
    t.incorporate(Literal(2));
    assert!(!t.is_consistent());
}

#[test]
fn congruence_reaches_applications() {
    // f(a) == f(b) follows from a == b
    let mut t = EUF::new(vec![
        EUFLiteral::new(EUFTerm::atom(1), EUFTerm::atom(2)),
        EUFLiteral::new(
            EUFTerm::ap(7, vec![EUFTerm::atom(1)]),
            EUFTerm::ap(7, vec![EUFTerm::atom(2)]),
        ),
    ]);
    assert_eq!(t.decide(Literal(2)), None);
    t.incorporate(Literal(1));
    assert_eq!(t.decide(Literal(2)), Some(true));
}

#[test]
fn congruence_through_nested_rewrites() {
    // g(f(a), f(a)) == g(f(b), f(a)) once a == b
    let fa = || EUFTerm::ap(1, vec![EUFTerm::atom(1)]);
    let fb = || EUFTerm::ap(1, vec![EUFTerm::atom(2)]);
    let mut t = EUF::new(vec![
        EUFLiteral::new(EUFTerm::atom(1), EUFTerm::atom(2)),
        EUFLiteral::new(EUFTerm::ap(2, vec![fa(), fa()]), EUFTerm::ap(2, vec![fb(), fa()])),
        EUFLiteral::new(EUFTerm::ap(2, vec![fa(), fa()]), EUFTerm::ap(3, vec![fb(), fa()])),
    ]);
    t.incorporate(Literal(1));
    assert_eq!(t.decide(Literal(2)), Some(true));
    assert_eq!(t.decide(Literal(3)), None);
}

#[test]
fn atoms_and_applications_are_distinct() {
    let t = EUF::new(vec![EUFLiteral::new(EUFTerm::atom(1), EUFTerm::ap(1, vec![]))]);
    assert_eq!(t.decide(Literal(1)), None);
}

#[test]
fn bindings_cover_the_literal_list() {
    let t = two_atoms();
    assert!(t.binds(1));
    assert!(t.binds(4));
    assert!(!t.binds(5));
    assert!(!t.binds(0));
}

const UNSAT_TEXT: &str = "== 1(1 2) 1\n== 1(2) 2(1)\n== 1(1(1 2) 2) 3\n== 1 3\n--\np cnf 4 4\n1 0\n2 0\n3 0\n-4 0\n";
const SAT_TEXT: &str = "== 1(1 2) 1\n== 1(2) 2(1)\n== 1(1(1 2) 2) 3\n== 1 3\n--\np cnf 4 4\n1 0\n2 0\n3 0\n-4 4 0\n";

#[test]
fn congruence_contradicts_a_disequality() {
    let (mut t, f) = from_string(UNSAT_TEXT.to_string()).expect("parses");
    assert!(!smt(&mut t, f));
}

#[test]
fn congruence_forces_a_equals_c() {
    let (mut t, f) = from_string(SAT_TEXT.to_string()).expect("parses");
    let lits = smt_assignment(&mut t, f).expect("satisfiable");
    assert!(lits.contains(&Literal(4)));
}

#[test]
fn parsed_theory_matches_constructed_one() {
    let (mut t, f) = EUF::from_string(SAT_TEXT.to_string()).expect("parses");
    assert_eq!(
        f,
        Formula::new(vec![
            Clause::new(vec![1]),
            Clause::new(vec![2]),
            Clause::new(vec![3]),
            Clause::new(vec![-4, 4]),
        ])
    );
    assert!(t.binds(4));
    assert!(!t.binds(5));
    t.incorporate(Literal(1));
    t.incorporate(Literal(3));
    assert_eq!(t.decide(Literal(4)), Some(true));
}

#[test]
fn disequality_lines_are_read() {
    let (t, _) = from_string("/= 1 2\n--\np cnf 1 1\n1 0".to_string()).expect("parses");
    assert_eq!(t.decide(Literal(1)), None);
    let (t, _) = from_string("/= 5 5\n--\np cnf 1 1\n1 0".to_string()).expect("parses");
    assert_eq!(t.decide(Literal(1)), Some(false));
}

#[test]
fn spaces_inside_terms_are_allowed() {
    let (t, _) = from_string("==  3 ( 1  2 )   3(1 2)\n--\np cnf 1 1\n1 0".to_string()).expect("parses");
    assert_eq!(t.decide(Literal(1)), Some(true));
}

#[test]
fn bad_equality_symbol_is_reported() {
    let r = from_string("=! 1 2\n--\n".to_string());
    assert_eq!(r.err(), Some(ParseError::CannotParseEqualitySymbol { c1: Some('='), c2: Some('!') }));
    let r = from_string("=\n--\n".to_string());
    assert_eq!(r.err(), Some(ParseError::CannotParseEqualitySymbol { c1: Some('='), c2: None }));
    let r = from_string("\n--\n".to_string());
    assert_eq!(r.err(), Some(ParseError::CannotParseEqualitySymbol { c1: None, c2: None }));
}

#[test]
fn unterminated_application_is_reported() {
    let r = from_string("== 1(2 3\n--\n".to_string());
    assert_eq!(r.err(), Some(ParseError::UnexpectedEndOfApTerm));
}

#[test]
fn missing_atom_is_reported() {
    let r = from_string("== x 2\n--\n".to_string());
    assert_eq!(r.err(), Some(ParseError::CannotParseAtom));
    let r = from_string("== 1\n--\n".to_string());
    assert_eq!(r.err(), Some(ParseError::CannotParseAtom));
}

#[test]
fn dimacs_errors_are_wrapped() {
    let r = from_string("== 1 2\n--\np cnf 1 2\n1 0\n".to_string());
    assert_eq!(
        r.err(),
        Some(ParseError::DIMACSError(sat::dimacs::ParseError::WrongNumberOfClauses {
            expected: 2,
            actual: 1
        }))
    );
}

#[test]
fn combinators_read_numbers_and_spaces() {
    let chars: Vec<char> = "   42(x".chars().collect();
    assert_eq!(eat_whitespace(&chars, 0), 3);
    assert_eq!(eat_whitespace(&chars, 5), 5);
    assert_eq!(parse_usize(&chars, 3), Some((42, 5)));
    assert_eq!(parse_usize(&chars, 6), None);
    let big: Vec<char> = "99999999999999999999".chars().collect();
    assert_eq!(parse_usize(&big, 0), None);
}

#[test]
fn errors_inside_arguments_keep_their_kind() {
    let r = from_string("== 1(x) 2\n--\n".to_string());
    assert_eq!(r.err(), Some(ParseError::CannotParseAtom));
    let r = from_string("== 1(2 3(4\n--\n".to_string());
    assert_eq!(r.err(), Some(ParseError::UnexpectedEndOfApTerm));
    let r = from_string("== 1 2\n=/ 1 2\n--\n".to_string());
    assert_eq!(r.err(), Some(ParseError::CannotParseEqualitySymbol { c1: Some('='), c2: Some('/') }));
}

#[test]
fn empty_argument_lists_are_applications() {
    let (t, _) = from_string("== 1() 1\n--\np cnf 1 1\n1 0".to_string()).expect("parses");
    assert_eq!(t.decide(Literal(1)), None);
}

#[test]
fn parse_errors_have_messages() {
    assert_eq!(
        ParseError::CannotParseEqualitySymbol { c1: Some('='), c2: Some('!') }.to_string(),
        "cannot parse equality symbol, expected '==' or '/=' but got '=!'"
    );
    assert_eq!(
        ParseError::CannotParseEqualitySymbol { c1: Some('x'), c2: None }.to_string(),
        "cannot parse equality symbol, expected '==' or '/=' but got 'x'"
    );
    assert_eq!(ParseError::CannotParseEqualitySymbol { c1: None, c2: None }.to_string(), "unexpected empty line");
    assert_eq!(ParseError::UnexpectedEndOfApTerm.to_string(), "unexpected end of application term");
    assert_eq!(ParseError::CannotParseAtom.to_string(), "cannot parse atom");
    assert_eq!(
        ParseError::DIMACSError(sat::dimacs::ParseError::WrongNumberOfClauses { expected: 12, actual: 3 }).to_string(),
        "cannot parse DIMACS: wrong number of clauses, expected 12 but got 3"
    );
    assert_eq!(
        sat::dimacs::ParseError::CannotParsePreludeLine("p x".to_string()).to_string(),
        "cannot parse prelude line 'p x'"
    );
    assert_eq!(
        sat::dimacs::ParseError::WrongNumberOfVariables { expected: 0, actual: 105 }.to_string(),
        "wrong number of variables, expected 0 but got 105"
    );
}
