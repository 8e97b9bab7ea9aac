use sat::cnf::{Clause, Formula};
use sat::dimacs::{from_string, ParseError};

fn example() -> Formula {
    Formula::new(vec![
        Clause::new(vec![-3, 4]),
        Clause::new(vec![-1, -3, -5]),
        Clause::new(vec![-2, -4, -5]),
        Clause::new(vec![-2, 3, 5, -6]),
        Clause::new(vec![-1, 2]),
        Clause::new(vec![-1, 3, -5, -6]),
        Clause::new(vec![1, -6]),
        Clause::new(vec![1, 7]),
    ])
}

#[test]
fn works() {
    let formula = example();

    let formula_str = "c hello world\n\
                       p cnf 7 8\n\
                       -3 4 0\n\
                       -1 -3 -5 0\n\
                       -2 -4 -5 0\n\
                       -2 3 5 -6 0\n\
                       -1 2 0\n\
                       -1 3 -5 -6 0\n\
                       1 -6 0\n\
                       1 7 0";

    assert_eq!(Ok(formula), from_string(formula_str.to_string()));
}

#[test]
fn works_with_awkward_newlines() {
    let formula = example();

    let formula_str = "c hello world\n\
                       p cnf 7 8\n\
                       -3 4 0 -1 -3 -5 0 -2 -4\n\
                       -5 0 -2 3 5 -6 0\n\
                       -1 2 0 -1 3 -5\n\
                       -6 0 1 -6 0 1 7 0";

    assert_eq!(Ok(formula), from_string(formula_str.to_string()));
}

#[test]
fn counts_variables() {
    let formula_str = "c hello world\n\
                       p cnf 1 8\n\
                       -3 4 0\n\
                       -1 -3 -5 0\n\
                       -2 -4 -5 0\n\
                       -2 3 5 -6 0\n\
                       -1 2 0\n\
                       -1 3 -5 -6 0\n\
                       1 -6 0\n\
                       1 7 0";

    assert!(from_string(formula_str.to_string()).is_err());
}

#[test]
fn counts_clauses() {
    let formula_str = "c hello world\n\
                       p cnf 7 99\n\
                       -3 4 0\n\
                       -1 -3 -5 0\n\
                       -2 -4 -5 0\n\
                       -2 3 5 -6 0\n\
                       -1 2 0\n\
                       -1 3 -5 -6 0\n\
                       1 -6 0\n\
                       1 7 0";

    assert!(from_string(formula_str.to_string()).is_err());
}

#[test]
fn wrong_variable_count_reports_both_counts() {
    let r = from_string("p cnf 1 2\n1 0\n-3 0".to_string());
    assert_eq!(r, Err(ParseError::WrongNumberOfVariables { expected: 1, actual: 3 }));
}

#[test]
fn wrong_clause_count_reports_both_counts() {
    let r = from_string("p cnf 2 3\n1 0\n-2 0".to_string());
    assert_eq!(r, Err(ParseError::WrongNumberOfClauses { expected: 3, actual: 2 }));
}

#[test]
fn bad_prelude_line_is_quoted() {
    let r = from_string("c ok\nhello there\np cnf 1 1\n1 0".to_string());
    assert_eq!(r, Err(ParseError::CannotParsePreludeLine("hello there".to_string())));
}

#[test]
fn empty_line_in_prelude_is_rejected() {
    let r = from_string("\np cnf 1 1\n1 0".to_string());
    assert_eq!(r, Err(ParseError::CannotParsePreludeLine("".to_string())));
}

#[test]
fn header_without_clause_count_is_rejected() {
    let r = from_string("p cnf 3\n1 0".to_string());
    assert_eq!(r, Err(ParseError::CannotParsePreludeLine("p cnf 3".to_string())));
}

#[test]
fn negative_count_is_rejected() {
    let r = from_string("p cnf -1 1\n1 0".to_string());
    assert_eq!(r, Err(ParseError::CannotParsePreludeLine("p cnf -1 1".to_string())));
}

#[test]
fn unexpected_format_is_named() {
    let r = from_string("p dnf 1 1\n1 0".to_string());
    assert_eq!(r, Err(ParseError::UnexpectedFormat("dnf".to_string())));
}

#[test]
fn bad_clause_line_is_quoted() {
    let r = from_string("p cnf 2 1\n1 x 0".to_string());
    assert_eq!(r, Err(ParseError::CannotParseClauseLine("1 x 0".to_string())));
}

#[test]
fn smallest_isize_literal_is_rejected() {
    let r = from_string("p cnf 1 1\n-9223372036854775808 0".to_string());
    assert_eq!(r, Err(ParseError::CannotParseClauseLine("-9223372036854775808 0".to_string())));
}

#[test]
fn signs_and_crlf_are_accepted() {
    let r = from_string("c x\r\np cnf 2 1\r\n+1 -2 0\r\n".to_string());
    assert_eq!(r, Ok(Formula::new(vec![Clause::new(vec![1, -2])])));
}

#[test]
fn clauses_beyond_the_declared_count_are_counted() {
    let r = from_string("p cnf 1 1\n1 0\n-1 0\n".to_string());
    assert_eq!(r, Err(ParseError::WrongNumberOfClauses { expected: 1, actual: 2 }));
}

#[test]
fn text_after_the_clauses_must_be_literals() {
    let r = from_string("p cnf 1 1\n1 0\nnot a literal".to_string());
    assert_eq!(r, Err(ParseError::CannotParseClauseLine("not a literal".to_string())));
}

#[test]
fn fewer_atoms_than_declared_are_accepted() {
    let r = from_string("p cnf 2 1\n1 0".to_string());
    assert_eq!(r, Ok(Formula::new(vec![Clause::new(vec![1])])));
}

#[test]
fn unterminated_last_clause_is_dropped() {
    let r = from_string("p cnf 2 2\n1 0 2".to_string());
    assert_eq!(r, Err(ParseError::WrongNumberOfClauses { expected: 2, actual: 1 }));
}

#[test]
fn comments_only_give_the_empty_formula() {
    let r = from_string("c nothing\nc here\n".to_string());
    assert_eq!(r, Ok(Formula::new(vec![])));
}

#[test]
fn printing_then_parsing_gives_the_formula_back() {
    let formula = Formula::new(vec![
        Clause::new(vec![12, -1, 12]),
        Clause::new(vec![-3]),
        Clause::new(vec![1, -2, 3, -10]),
    ]);
    let text = formula.to_dimacs();
    assert_eq!(text, "p cnf 12 3\n12 -1 12 0\n-3 0\n1 -2 3 -10 0\n");
    assert_eq!(from_string(text), Ok(formula));
}

#[test]
fn printing_the_empty_formula() {
    let formula = Formula::new(vec![]);
    assert_eq!(formula.to_dimacs(), "p cnf 0 0\n");
    assert_eq!(from_string(formula.to_dimacs()), Ok(formula));
}

#[test]
fn formulas_print_as_text() {
    let formula = Formula::new(vec![Clause::new(vec![1, -22]), Clause::new(vec![]), Clause::new(vec![3])]);
    assert_eq!(formula.to_string(), "(1 || -22) && () && (3)");
    assert_eq!(Clause::new(vec![-5]).to_string(), "(-5)");
    assert_eq!(sat::cnf::Literal::new(-907).to_string(), "-907");
    assert_eq!(Formula::new(vec![]).to_string(), "");
}

#[test]
fn parsing_keeps_clauses_literal_by_literal() {
    let formula = Formula::new(vec![
        Clause::new(vec![2, -1, 2]),
        Clause::new(vec![-3]),
        Clause::new(vec![1, -2, 3]),
    ]);
    let mut text = String::from("p cnf 3 3\n");
    for clause in &formula.0 {
        for lit in &clause.0 {
            text.push_str(&format!("{} ", lit.0));
        }
        text.push_str("0\n");
    }
    assert_eq!(from_string(text), Ok(formula));
}
