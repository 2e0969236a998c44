use satire::formula::{Clause, Cnf, Literal, Model, Variable};

fn lit(number: i64) -> Literal {
    let index = (number.unsigned_abs() - 1) as usize;
    Literal::new(Variable::from_index(index).unwrap(), number > 0)
}

fn clause(numbers: &[i64]) -> Clause {
    Clause::new(numbers.iter().map(|&number| lit(number)).collect())
}

#[test]
fn variable_index_round_trips() {
    for index in [0, 1, 77, Variable::MAX_VARIABLE_INDEX] {
        assert_eq!(Variable::from_index(index).unwrap().index(), index);
    }
}

#[test]
fn variable_index_past_the_largest_is_refused() {
    assert_eq!(Variable::from_index(Variable::MAX_VARIABLE_INDEX + 1), None);
    assert_eq!(Variable::from_index(usize::MAX), None);
}

#[test]
fn literal_negation_flips_polarity_only() {
    let x = Variable::from_index(3).unwrap();
    let literal = Literal::new(x, true);
    assert_eq!((!literal).variable(), x);
    assert_eq!((!literal).index(), 3);
    assert!(!(!literal).positive());
    assert_eq!(!!literal, literal);
    assert_ne!(!literal, literal);
}

#[test]
fn literal_value_follows_polarity() {
    let assignment = [true, false];
    assert!(lit(1).value(&assignment));
    assert!(!lit(-1).value(&assignment));
    assert!(!lit(2).value(&assignment));
    assert!(lit(-2).value(&assignment));
}

#[test]
fn literal_of_unassigned_variable_has_no_value() {
    let assignment = [Some(true), None, Some(false)];
    assert_eq!(lit(1).partial_value(&assignment), Some(true));
    assert_eq!(lit(-1).partial_value(&assignment), Some(false));
    assert_eq!(lit(2).partial_value(&assignment), None);
    assert_eq!(lit(-2).partial_value(&assignment), None);
    assert_eq!(lit(3).partial_value(&assignment), Some(false));
    assert_eq!(lit(-3).partial_value(&assignment), Some(true));
}

#[test]
fn clause_keeps_its_literals_in_order() {
    let clause = clause(&[3, -1, 3]);
    assert_eq!(clause.num_literals(), 3);
    assert_eq!(clause.literal(0), lit(3));
    assert_eq!(clause.literal(1), lit(-1));
    assert_eq!(clause.iter(), vec![lit(3), lit(-1), lit(3)]);
    assert_eq!(clause.clone().iter(), clause.iter());
}

#[test]
fn formula_keeps_clauses_in_order() {
    let mut formula = Cnf::new(2);
    formula.add_clause(clause(&[1, -2]));
    formula.add_clause(clause(&[-2]));
    formula.add_clause(clause(&[]));
    assert_eq!(formula.num_variables(), 2);
    assert_eq!(formula.clauses().len(), 3);
    assert_eq!(formula.clauses()[0].iter(), vec![lit(1), lit(-2)]);
    assert_eq!(formula.clauses()[1].num_literals(), 1);
    assert_eq!(formula.clauses()[2].num_literals(), 0);
    let copy = formula.clone();
    assert_eq!(copy.num_variables(), 2);
    assert_eq!(copy.clauses()[0].iter(), vec![lit(1), lit(-2)]);
}

#[test]
fn formula_accepts_the_literals_of_its_variables() {
    let formula = Cnf::new(2);
    assert!(formula.accepts(&clause(&[1, -2, 2])));
    assert!(formula.accepts(&clause(&[])));
    assert!(!formula.accepts(&clause(&[1, 3])));
    assert!(!Cnf::new(0).accepts(&clause(&[1])));
}

#[test]
fn formula_is_satisfied_where_every_clause_has_a_true_literal() {
    let mut formula = Cnf::new(3);
    formula.add_clause(clause(&[1, 2]));
    formula.add_clause(clause(&[-1, 3]));
    formula.add_clause(clause(&[-2, -3]));
    assert!(formula.is_satisfied_by(&vec![true, false, true]));
    assert!(formula.is_satisfied_by(&vec![false, true, false]));
    assert!(!formula.is_satisfied_by(&vec![true, true, true]));
    assert!(!formula.is_satisfied_by(&vec![false, false, false]));
    assert!(!formula.is_satisfied_by(&vec![true, false]));
    assert!(!formula.is_satisfied_by(&vec![true, false, true, true]));
}

#[test]
fn model_is_made_of_a_satisfying_assignment_only() {
    let mut formula = Cnf::new(2);
    formula.add_clause(clause(&[1]));
    formula.add_clause(clause(&[-1, -2]));
    let model = Model::try_new(formula.clone(), vec![true, false]).unwrap();
    assert_eq!(model.assignment(), &[true, false]);
    assert_eq!(model.formula().clauses().len(), 2);
    assert!(Model::try_new(formula.clone(), vec![true, true]).is_none());
    assert!(Model::try_new(formula.clone(), vec![true]).is_none());
    let model = Model::new(formula, vec![true, false]);
    assert_eq!(model.assignment(), &[true, false]);
}

#[test]
fn formula_with_the_empty_clause_has_no_model() {
    let mut formula = Cnf::new(1);
    formula.add_clause(clause(&[]));
    assert!(Model::try_new(formula.clone(), vec![true]).is_none());
    assert!(Model::try_new(formula, vec![false]).is_none());
    assert!(Model::try_new(Cnf::new(0), vec![]).is_some());
}
