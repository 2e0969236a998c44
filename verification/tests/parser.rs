use satire::formula::{Literal, Variable, VariableParseError};
use satire::parser::{parse_line, parse_lines, Error};
use satire::solver::{CdclSolver, DpllSolver, Solver};
use satire::text::{parse_number, split, split_blanks, trim};

fn lines(text: &str) -> Vec<String> {
    text.lines().map(|line| line.to_owned()).collect()
}

fn lit(number: i64) -> Literal {
    let index = (number.unsigned_abs() - 1) as usize;
    Literal::new(Variable::from_index(index).unwrap(), number > 0)
}

#[test]
fn numbers_are_read_as_decimals() {
    assert_eq!(parse_number(b"0", 0, 1), Some(0));
    assert_eq!(parse_number(b"007", 0, 3), Some(7));
    assert_eq!(parse_number(b"+42", 0, 3), Some(42));
    assert_eq!(parse_number(b"x1234y", 1, 5), Some(1234));
    assert_eq!(parse_number(b"18446744073709551615", 0, 20), Some(usize::MAX));
}

#[test]
fn texts_that_are_no_numbers_are_refused() {
    assert_eq!(parse_number(b"", 0, 0), None);
    assert_eq!(parse_number(b"+", 0, 1), None);
    assert_eq!(parse_number(b"-1", 0, 2), None);
    assert_eq!(parse_number(b"++1", 0, 3), None);
    assert_eq!(parse_number(b"12a", 0, 3), None);
    assert_eq!(parse_number(b" 12", 0, 3), None);
    assert_eq!(parse_number(b"18446744073709551616", 0, 20), None);
    assert_eq!(parse_number(b"99999999999999999999999x", 0, 24), None);
}

#[test]
fn words_are_split_at_single_spaces() {
    assert_eq!(split(b"1 -2 0", 0, 6), vec![(0, 1), (2, 4), (5, 6)]);
    assert_eq!(split(b"", 0, 0), vec![(0, 0)]);
    assert_eq!(split(b"a  b", 0, 4), vec![(0, 1), (2, 2), (3, 4)]);
    assert_eq!(split(b" a ", 0, 3), vec![(0, 0), (1, 2), (3, 3)]);
    assert_eq!(split(b"a\tb", 0, 3), vec![(0, 3)]);
}

#[test]
fn blanks_around_a_line_are_trimmed() {
    assert_eq!(trim(b"  1 2 0 \r\n"), (2, 7));
    assert_eq!(trim(b"abc"), (0, 3));
    assert_eq!(trim(b" \t "), (3, 3));
    assert_eq!(trim(b""), (0, 0));
}

#[test]
fn variables_count_from_one() {
    assert_eq!(Variable::from_str("1"), Ok(Variable::from_index(0).unwrap()));
    assert_eq!(Variable::from_str("12"), Ok(Variable::from_index(11).unwrap()));
    assert_eq!(Variable::from_str("4294967296").unwrap().index(), Variable::MAX_VARIABLE_INDEX);
}

#[test]
fn variable_zero_is_out_of_range() {
    assert_eq!(Variable::from_str("0"), Err(VariableParseError::RangeError { num: 0 }));
}

#[test]
fn variable_past_the_largest_index_is_out_of_range() {
    assert_eq!(
        Variable::from_str("4294967297"),
        Err(VariableParseError::RangeError { num: 4294967296 })
    );
}

#[test]
fn variable_that_is_no_number_is_refused() {
    assert_eq!(Variable::from_str("x"), Err(VariableParseError::ParseIntError));
    assert_eq!(Variable::from_str(""), Err(VariableParseError::ParseIntError));
    assert_eq!(Variable::from_str("-3"), Err(VariableParseError::ParseIntError));
    assert_eq!(
        Variable::from_str("99999999999999999999999999"),
        Err(VariableParseError::ParseIntError)
    );
}

#[test]
fn literals_are_negated_by_a_leading_minus() {
    assert_eq!(Literal::from_str("3"), Ok(lit(3)));
    assert_eq!(Literal::from_str("-3"), Ok(lit(-3)));
    assert_eq!(Literal::from_str("-0"), Err(VariableParseError::RangeError { num: 0 }));
    assert_eq!(Literal::from_str("--3"), Err(VariableParseError::ParseIntError));
    assert_eq!(Literal::from_str("-"), Err(VariableParseError::ParseIntError));
}

#[test]
fn clause_line_is_read() {
    let clause = parse_line("1 -2 3 0").unwrap();
    assert_eq!(clause.iter(), vec![lit(1), lit(-2), lit(3)]);
    assert_eq!(parse_line("0").unwrap().num_literals(), 0);
}

#[test]
fn clause_line_without_final_zero_is_malformed() {
    match parse_line("1 -2 3") {
        Err(Error::MalformedClause { clause }) => assert_eq!(clause, "1 -2 3"),
        other => panic!("{:?}", other),
    }
    assert!(matches!(parse_line(""), Err(Error::MalformedClause { .. })));
    assert!(matches!(parse_line("1 0 "), Err(Error::MalformedClause { .. })));
    assert!(matches!(parse_line("x y"), Err(Error::MalformedClause { .. })));
}

#[test]
fn clause_line_with_a_bad_word_is_malformed() {
    match parse_line("1 x 0") {
        Err(Error::MalformedVariable { clause, source }) => {
            assert_eq!(clause, "1 x 0");
            assert_eq!(source, VariableParseError::ParseIntError);
        },
        other => panic!("{:?}", other),
    }
    match parse_line("1  2 0") {
        Err(Error::MalformedVariable { source, .. }) => {
            assert_eq!(source, VariableParseError::ParseIntError)
        },
        other => panic!("{:?}", other),
    }
    match parse_line("1 0 0") {
        Err(Error::MalformedVariable { source, .. }) => {
            assert_eq!(source, VariableParseError::RangeError { num: 0 })
        },
        other => panic!("{:?}", other),
    }
}

#[test]
fn first_bad_word_is_reported() {
    match parse_line("0 x 0") {
        Err(Error::MalformedVariable { source, .. }) => {
            assert_eq!(source, VariableParseError::RangeError { num: 0 })
        },
        other => panic!("{:?}", other),
    }
}

#[test]
fn formula_is_read_from_lines() {
    let formula = parse_lines(&lines(
        "c a small formula\n\np cnf 3 3\n1 2 0\nc between the clauses\n  -1 3 0  \n\n-2 -3 0\n",
    ))
    .unwrap();
    assert_eq!(formula.num_variables(), 3);
    assert_eq!(formula.clauses().len(), 3);
    assert_eq!(formula.clauses()[0].iter(), vec![lit(1), lit(2)]);
    assert_eq!(formula.clauses()[1].iter(), vec![lit(-1), lit(3)]);
    assert_eq!(formula.clauses()[2].iter(), vec![lit(-2), lit(-3)]);
}

#[test]
fn empty_clause_counts_as_a_clause() {
    let formula = parse_lines(&lines("p cnf 2 2\n1 2 0\n0\n")).unwrap();
    assert_eq!(formula.clauses().len(), 2);
    assert_eq!(formula.clauses()[1].num_literals(), 0);
    assert!(DpllSolver::new(formula.clone()).solve().is_none());
    assert!(CdclSolver::new(formula).solve().is_none());
}

#[test]
fn missing_problem_line_is_reported() {
    assert!(matches!(parse_lines(&lines("")), Err(Error::MalformedProblemDefinition)));
    assert!(matches!(
        parse_lines(&lines("c only a comment\n1 2 0\n")),
        Err(Error::MalformedProblemDefinition)
    ));
}

#[test]
fn malformed_problem_line_is_reported() {
    for text in [
        "p cnf 3\n",
        "p cnf 3 1 1\n",
        "p dnf 3 1\n",
        "pp cnf 3 1\n",
        "p cnf x 1\n",
        "p cnf 3 y\n",
        "p cnf -3 1\n",
        "p cnf 4294967297 0\n",
        "p cnf 1 99999999999999999999999\n",
        "problem\n",
        "pcnf 3 1\n",
        "1 2 0\np cnf 2 1\n",
        "not a clause\np cnf 1 0\n",
    ] {
        assert!(
            matches!(parse_lines(&lines(text)), Err(Error::MalformedProblemDefinition)),
            "{}",
            text
        );
    }
}

#[test]
fn largest_number_of_variables_is_accepted() {
    let formula = parse_lines(&lines("p cnf 4294967296 1\n4294967296 0\n")).unwrap();
    assert_eq!(formula.num_variables(), 4294967296);
    assert_eq!(formula.clauses()[0].literal(0).index(), Variable::MAX_VARIABLE_INDEX);
}

#[test]
fn clause_count_mismatch_is_reported() {
    match parse_lines(&lines("p cnf 2 3\n1 0\n-2 0\n")) {
        Err(Error::ClauseCountMismatch { expected, found }) => {
            assert_eq!(expected, 3);
            assert_eq!(found, 2);
        },
        other => panic!("{:?}", other.map(|_| ())),
    }
    assert!(matches!(
        parse_lines(&lines("p cnf 2 0\n1 0\n")),
        Err(Error::ClauseCountMismatch { expected: 0, found: 1 })
    ));
}

#[test]
fn literal_outside_the_formula_is_reported() {
    match parse_lines(&lines("p cnf 2 1\n1 -3 4 0\n")) {
        Err(Error::MalformedVariable { clause, source }) => {
            assert_eq!(clause, "1 -3 4 0");
            assert_eq!(source, VariableParseError::RangeError { num: 2 });
        },
        other => panic!("{:?}", other.map(|_| ())),
    }
}

#[test]
fn malformed_clause_line_names_the_line() {
    match parse_lines(&lines("p cnf 2 2\n1 2 0\n1 2\n")) {
        Err(Error::MalformedClause { clause }) => assert_eq!(clause, "1 2"),
        other => panic!("{:?}", other.map(|_| ())),
    }
    match parse_lines(&lines("p cnf 2 2\n1 two 0\n1 2\n")) {
        Err(Error::MalformedVariable { clause, source }) => {
            assert_eq!(clause, "1 two 0");
            assert_eq!(source, VariableParseError::ParseIntError);
        },
        other => panic!("{:?}", other.map(|_| ())),
    }
}

#[test]
fn comments_and_empty_lines_before_the_problem_line_are_passed_over() {
    let formula = parse_lines(&lines("\nc p cnf 9 9\n   \n  c more\np cnf 1 1\n1 0\n")).unwrap();
    assert_eq!(formula.num_variables(), 1);
    assert_eq!(formula.clauses().len(), 1);
}

#[test]
fn fields_of_the_problem_line_are_separated_by_blanks() {
    let formula = parse_lines(&lines("  p   cnf\t2  1 \n1 -2 0\n")).unwrap();
    assert_eq!(formula.num_variables(), 2);
    assert_eq!(split_blanks(b"  p   cnf\t2  1 ", 0, 15), vec![(2, 3), (6, 9), (10, 11), (13, 14)]);
    assert_eq!(split_blanks(b"", 0, 0), vec![]);
    assert_eq!(split_blanks(b" \t ", 0, 3), vec![]);
    assert_eq!(split_blanks(b"ab", 0, 2), vec![(0, 2)]);
}

#[test]
fn problem_line_may_tell_the_largest_counts() {
    let formula = parse_lines(&lines("p cnf 0 0\n")).unwrap();
    assert_eq!(formula.num_variables(), 0);
    assert_eq!(formula.clauses().len(), 0);
}

#[test]
fn parsed_formulas_are_solved() {
    let satisfiable = parse_lines(&lines("p cnf 1 1\n1 0\n")).unwrap();
    assert_eq!(DpllSolver::new(satisfiable.clone()).solve().unwrap().assignment(), &[true]);
    assert_eq!(CdclSolver::new(satisfiable).solve().unwrap().assignment(), &[true]);
    let unsatisfiable = parse_lines(&lines("p cnf 1 2\n1 0\n-1 0\n")).unwrap();
    assert!(DpllSolver::new(unsatisfiable.clone()).solve().is_none());
    assert!(CdclSolver::new(unsatisfiable).solve().is_none());
}
