use satire::formula::{Clause, Cnf, Literal, Variable};
use satire::solver::cdcl::tracker::Tracker;
use satire::solver::cdcl::vsids::{SetEntry, VecEntry, VsidsScoring};

fn lit(number: i64) -> Literal {
    let index = (number.unsigned_abs() - 1) as usize;
    Literal::new(Variable::from_index(index).unwrap(), number > 0)
}

fn var(number: usize) -> Variable {
    Variable::from_index(number - 1).unwrap()
}

fn clause(numbers: &[i64]) -> Clause {
    Clause::new(numbers.iter().map(|&number| lit(number)).collect())
}

fn scoring(num_variables: usize, clauses: &[&[i64]]) -> VsidsScoring {
    let mut formula = Cnf::new(num_variables);
    for numbers in clauses {
        formula.add_clause(clause(numbers));
    }
    VsidsScoring::new(&Tracker::from_cnf(&formula))
}

#[test]
fn entries_keep_their_scores() {
    let mut entry = VecEntry::new(5);
    assert_eq!(entry.score, 5);
    assert_eq!(entry.update(7), 12);
    assert_eq!(entry.score, 12);
    let set_entry = SetEntry::from_vec_entry(var(3), entry);
    assert_eq!(set_entry.key(), (12, entry.nonce, 2));
}

#[test]
fn nonces_differ() {
    let nonces: Vec<u64> = (0..16).map(|_| VecEntry::new(0).nonce).collect();
    assert!(nonces.iter().any(|&nonce| nonce != nonces[0]));
}

#[test]
fn top_is_the_variable_with_the_most_occurrences() {
    let mut scoring = scoring(3, &[&[1, 2], &[-2, 3], &[2], &[-3]]);
    assert_eq!(scoring.top(), var(2));
    scoring.remove(var(2));
    assert_eq!(scoring.top(), var(3));
    scoring.remove(var(3));
    assert_eq!(scoring.top(), var(1));
    scoring.insert(var(2));
    assert_eq!(scoring.top(), var(2));
}

#[test]
fn bumps_raise_a_variable_to_the_top() {
    let mut scoring = scoring(3, &[&[1, 2], &[1, 3], &[1]]);
    assert_eq!(scoring.top(), var(1));
    for _ in 0..4 {
        scoring.learn_clause(&clause(&[-3]));
    }
    assert_eq!(scoring.top(), var(3));
    scoring.learn_clause(&clause(&[2, 2, 2, 2, 2]));
    assert_eq!(scoring.top(), var(2));
}

#[test]
fn later_bumps_count_for_more() {
    let mut scoring = scoring(2, &[]);
    scoring.learn_clause(&clause(&[1]));
    for _ in 0..30 {
        scoring.decay();
    }
    scoring.learn_clause(&clause(&[2]));
    assert_eq!(scoring.top(), var(2));
}

#[test]
fn a_variable_that_is_out_stays_out_when_bumped() {
    let mut scoring = scoring(2, &[&[1], &[1, 2]]);
    scoring.remove(var(1));
    scoring.learn_clause(&clause(&[1, 1, 1]));
    assert_eq!(scoring.top(), var(2));
    scoring.insert(var(1));
    assert_eq!(scoring.top(), var(1));
}

#[test]
fn scores_survive_rebalancing_in_order() {
    let mut scoring = scoring(3, &[]);
    // After this many conflicts the rate is a little below a quarter of
    // the threshold.
    for _ in 0..520 {
        scoring.decay();
    }
    scoring.learn_clause(&clause(&[3]));
    scoring.learn_clause(&clause(&[3]));
    scoring.learn_clause(&clause(&[2]));
    assert_eq!(scoring.top(), var(3));
    // The third bump takes the score past the threshold, and all scores are
    // scaled down.
    scoring.learn_clause(&clause(&[3]));
    assert_eq!(scoring.top(), var(3));
    scoring.remove(var(3));
    assert_eq!(scoring.top(), var(2));
    scoring.remove(var(2));
    assert_eq!(scoring.top(), var(1));
    // A bump after the scaling outweighs what was scaled down.
    scoring.insert(var(2));
    scoring.learn_clause(&clause(&[1, 1, 1]));
    assert_eq!(scoring.top(), var(1));
}

#[test]
fn rate_stays_in_range_over_many_conflicts() {
    let mut scoring = scoring(2, &[&[1]]);
    for round in 0..5000 {
        scoring.decay();
        if round % 7 == 0 {
            scoring.learn_clause(&clause(&[2]));
        }
    }
    assert_eq!(scoring.top(), var(2));
}
