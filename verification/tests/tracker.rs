use satire::formula::{Clause, Cnf, Literal, Variable};
use satire::solver::cdcl::tracker::cache::{first_clause, ClauseStateCache};
use satire::solver::cdcl::tracker::clause_stat::{ClauseStat, ClauseStatus, ClauseStatusChange};
use satire::solver::cdcl::tracker::store::{ClauseIdx, WatchElement};
use satire::solver::cdcl::tracker::Tracker;

fn lit(number: i64) -> Literal {
    let index = (number.unsigned_abs() - 1) as usize;
    Literal::new(Variable::from_index(index).unwrap(), number > 0)
}

fn var(number: usize) -> Variable {
    Variable::from_index(number - 1).unwrap()
}

fn clause(numbers: &[i64]) -> Clause {
    Clause::new(numbers.iter().map(|&number| lit(number)).collect())
}

fn tracker(num_variables: usize, clauses: &[&[i64]]) -> Tracker {
    let mut formula = Cnf::new(num_variables);
    for numbers in clauses {
        formula.add_clause(clause(numbers));
    }
    Tracker::from_cnf(&formula)
}

/// The status of every clause and the contents of the three sets.
fn snapshot(tracker: &Tracker) -> (Vec<ClauseStatus>, Vec<usize>, Vec<usize>, Vec<usize>) {
    let statuses = (0..tracker.num_clauses())
        .map(|index| tracker.clause_status(ClauseIdx::from(index)))
        .collect();
    (
        statuses,
        tracker.falsified_clauses().iter().copied().collect(),
        tracker.satisfied_clauses().iter().copied().collect(),
        tracker.unit_clauses().iter().copied().collect(),
    )
}

/// Counts the literals of each clause again and compares with the status
/// and the sets of the tracker.
fn check_against_recount(tracker: &Tracker) {
    let assignments = tracker.assignments();
    for index in 0..tracker.num_clauses() {
        let idx = ClauseIdx::from(index);
        let literals = tracker.original_clause(idx).iter();
        let satisfied = literals
            .iter()
            .filter(|literal| literal.partial_value(assignments) == Some(true))
            .count();
        let unsatisfied = literals
            .iter()
            .filter(|literal| literal.partial_value(assignments) == Some(false))
            .count();
        let status = ClauseStatus::from_count(literals.len(), satisfied, unsatisfied);
        assert_eq!(tracker.clause_status(idx), status);
        assert_eq!(tracker.falsified_clauses().contains(&index), status == ClauseStatus::Falsified);
        assert_eq!(tracker.satisfied_clauses().contains(&index), status == ClauseStatus::Satisfied);
        assert_eq!(tracker.unit_clauses().contains(&index), status == ClauseStatus::Unit);
        let mut live = tracker.literals(idx);
        let mut expected: Vec<Literal> = literals
            .iter()
            .copied()
            .filter(|literal| literal.partial_value(assignments).is_none())
            .collect();
        let key = |literal: &Literal| (literal.index(), literal.positive());
        live.sort_by_key(key);
        expected.sort_by_key(key);
        assert_eq!(live, expected);
    }
}

#[test]
fn status_follows_from_the_counts() {
    assert_eq!(ClauseStatus::from_count(3, 0, 3), ClauseStatus::Falsified);
    assert_eq!(ClauseStatus::from_count(3, 1, 2), ClauseStatus::Satisfied);
    assert_eq!(ClauseStatus::from_count(3, 1, 0), ClauseStatus::Satisfied);
    assert_eq!(ClauseStatus::from_count(3, 0, 2), ClauseStatus::Unit);
    assert_eq!(ClauseStatus::from_count(3, 0, 1), ClauseStatus::Unresolved);
    assert_eq!(ClauseStatus::from_count(3, 0, 0), ClauseStatus::Unresolved);
    assert_eq!(ClauseStatus::from_count(1, 0, 0), ClauseStatus::Unit);
    assert_eq!(ClauseStatus::from_count(0, 0, 0), ClauseStatus::Falsified);
    assert_eq!(ClauseStatus::from_count(0, 0, usize::MAX), ClauseStatus::Unresolved);
}

#[test]
fn counts_report_the_status_before_and_after() {
    let mut stat = ClauseStat::new(2, 0, 0);
    assert_eq!(stat.status(), ClauseStatus::Unresolved);
    let change = stat.increment_unsatisfied();
    assert_eq!((change.old, change.new), (ClauseStatus::Unresolved, ClauseStatus::Unit));
    let change = stat.increment_unsatisfied();
    assert_eq!((change.old, change.new), (ClauseStatus::Unit, ClauseStatus::Falsified));
    let change = stat.decrement_unsatisfied();
    assert_eq!((change.old, change.new), (ClauseStatus::Falsified, ClauseStatus::Unit));
    let change = stat.increment_satisfied();
    assert_eq!((change.old, change.new), (ClauseStatus::Unit, ClauseStatus::Satisfied));
    assert_eq!((stat.total, stat.satisfied, stat.unsatisfied), (2, 1, 1));
    let change = stat.decrement_satisfied();
    assert_eq!((change.old, change.new), (ClauseStatus::Satisfied, ClauseStatus::Unit));
    let change = stat.decrement_unsatisfied();
    assert_eq!((change.old, change.new), (ClauseStatus::Unit, ClauseStatus::Unresolved));
    assert_eq!(stat.status(), ClauseStatus::Unresolved);
}

#[test]
fn cache_moves_a_clause_between_sets() {
    let mut cache = ClauseStateCache::new();
    cache.insert(ClauseStatus::Unresolved, ClauseIdx::from(4));
    cache.insert(ClauseStatus::Unit, ClauseIdx::from(2));
    cache.handle_change(
        ClauseStatusChange { old: ClauseStatus::Unresolved, new: ClauseStatus::Unit },
        ClauseIdx::from(4),
    );
    assert!(cache.get(ClauseStatus::Unresolved).is_empty());
    assert_eq!(cache.get(ClauseStatus::Unit).iter().copied().collect::<Vec<_>>(), vec![2, 4]);
    cache.handle_change(
        ClauseStatusChange { old: ClauseStatus::Unit, new: ClauseStatus::Unit },
        ClauseIdx::from(4),
    );
    assert_eq!(cache.get(ClauseStatus::Unit).len(), 2);
    assert_eq!(first_clause(cache.get(ClauseStatus::Unit)), Some(2));
    cache.insert(ClauseStatus::Unit, ClauseIdx::from(0));
    cache.insert(ClauseStatus::Unit, ClauseIdx::from(9));
    assert_eq!(first_clause(cache.get(ClauseStatus::Unit)), Some(0));
    assert_eq!(first_clause(cache.get(ClauseStatus::Falsified)), None);
}

#[test]
fn watch_element_keeps_its_parts() {
    let element = WatchElement::new(ClauseIdx::from(7), None);
    assert_eq!(usize::from(element.clause_idx), 7);
    assert!(element.clause_col.is_none());
}

#[test]
fn fresh_tracker_classifies_by_length() {
    let tracker = tracker(3, &[&[1, 2], &[3], &[], &[1, -2, 3]]);
    assert_eq!(tracker.num_clauses(), 4);
    assert_eq!(tracker.num_variables(), 3);
    assert_eq!(tracker.clause_status(ClauseIdx::from(0)), ClauseStatus::Unresolved);
    assert_eq!(tracker.clause_status(ClauseIdx::from(1)), ClauseStatus::Unit);
    assert_eq!(tracker.clause_status(ClauseIdx::from(2)), ClauseStatus::Falsified);
    assert_eq!(tracker.clause_status(ClauseIdx::from(3)), ClauseStatus::Unresolved);
    assert_eq!(tracker.assignments(), &[None, None, None]);
    check_against_recount(&tracker);
}

#[test]
fn assigning_updates_the_clauses_that_hold_the_variable() {
    let mut tracker = tracker(3, &[&[1, 2], &[-1, 3], &[-2, -3], &[-1]]);
    tracker.set_literal(lit(1));
    assert_eq!(tracker.assignments(), &[Some(true), None, None]);
    assert_eq!(tracker.clause_status(ClauseIdx::from(0)), ClauseStatus::Satisfied);
    assert_eq!(tracker.clause_status(ClauseIdx::from(1)), ClauseStatus::Unit);
    assert_eq!(tracker.clause_status(ClauseIdx::from(2)), ClauseStatus::Unresolved);
    assert_eq!(tracker.clause_status(ClauseIdx::from(3)), ClauseStatus::Falsified);
    assert_eq!(tracker.get_unit_clause_literal(ClauseIdx::from(1)), lit(3));
    assert_eq!(tracker.literals(ClauseIdx::from(1)), vec![lit(3)]);
    check_against_recount(&tracker);
    tracker.set_literal(lit(-3));
    assert_eq!(tracker.clause_status(ClauseIdx::from(1)), ClauseStatus::Falsified);
    assert_eq!(tracker.clause_status(ClauseIdx::from(2)), ClauseStatus::Satisfied);
    check_against_recount(&tracker);
}

#[test]
fn unset_after_set_restores_statuses_and_sets() {
    let mut tracker = tracker(
        4,
        &[&[1, 2, 3], &[-1, 2], &[-1, -2, 4], &[1], &[-1], &[2, -3], &[1, 1, -1], &[3, 4]],
    );
    tracker.set_literal(lit(2));
    for literal in [lit(1), lit(-1), lit(3), lit(-4)] {
        let before = snapshot(&tracker);
        tracker.set_literal(literal);
        check_against_recount(&tracker);
        tracker.unset(literal.variable());
        assert_eq!(snapshot(&tracker), before);
        check_against_recount(&tracker);
    }
}

#[test]
fn assignments_are_taken_back_in_any_order() {
    let mut tracker = tracker(3, &[&[1, 2, 3], &[-1, -2], &[-2, -3], &[2]]);
    let start = snapshot(&tracker);
    tracker.set_literal(lit(1));
    tracker.set_literal(lit(2));
    tracker.set_literal(lit(-3));
    check_against_recount(&tracker);
    tracker.unset(var(1));
    check_against_recount(&tracker);
    tracker.unset(var(3));
    check_against_recount(&tracker);
    tracker.unset(var(2));
    assert_eq!(snapshot(&tracker), start);
    assert_eq!(tracker.assignments(), &[None, None, None]);
}

#[test]
fn clause_added_during_search_is_counted_under_the_assignment() {
    let mut tracker = tracker(3, &[&[1, 2]]);
    tracker.set_literal(lit(-1));
    tracker.set_literal(lit(3));
    tracker.add_clause(clause(&[1, -3, 2]));
    tracker.add_clause(clause(&[1, -3]));
    tracker.add_clause(clause(&[3, 2]));
    assert_eq!(tracker.num_clauses(), 4);
    assert_eq!(tracker.clause_status(ClauseIdx::from(1)), ClauseStatus::Unit);
    assert_eq!(tracker.get_unit_clause_literal(ClauseIdx::from(1)), lit(2));
    assert_eq!(tracker.clause_status(ClauseIdx::from(2)), ClauseStatus::Falsified);
    assert_eq!(tracker.clause_status(ClauseIdx::from(3)), ClauseStatus::Satisfied);
    assert_eq!(tracker.original_clause(ClauseIdx::from(1)).iter(), vec![lit(1), lit(-3), lit(2)]);
    check_against_recount(&tracker);
    tracker.unset(var(3));
    tracker.unset(var(1));
    assert_eq!(tracker.clause_status(ClauseIdx::from(1)), ClauseStatus::Unresolved);
    assert_eq!(tracker.clause_status(ClauseIdx::from(2)), ClauseStatus::Unresolved);
    check_against_recount(&tracker);
}

#[test]
fn repeated_literals_are_counted_each() {
    let mut tracker = tracker(2, &[&[1, 1], &[1, -1], &[2, 2, -1]]);
    assert_eq!(tracker.clause_status(ClauseIdx::from(0)), ClauseStatus::Unresolved);
    tracker.set_literal(lit(-1));
    assert_eq!(tracker.clause_status(ClauseIdx::from(0)), ClauseStatus::Falsified);
    assert_eq!(tracker.clause_status(ClauseIdx::from(1)), ClauseStatus::Satisfied);
    assert_eq!(tracker.clause_status(ClauseIdx::from(2)), ClauseStatus::Satisfied);
    check_against_recount(&tracker);
    tracker.unset(var(1));
    check_against_recount(&tracker);
}

#[test]
fn occurrences_count_both_polarities() {
    let tracker = tracker(3, &[&[1, 2], &[-1, 3], &[-1, -1], &[2]]);
    assert_eq!(tracker.variable_occurrence(var(1)), 4);
    assert_eq!(tracker.variable_occurrence(var(2)), 2);
    assert_eq!(tracker.variable_occurrence(var(3)), 1);
}

#[test]
fn unit_formula_is_solved_by_propagation_alone() {
    let mut tracker = tracker(4, &[&[1], &[-1, 2], &[-2, -3], &[3, -4, 1]]);
    let mut propagated = Vec::new();
    while let Some(index) = first_clause(tracker.unit_clauses()) {
        let literal = tracker.get_unit_clause_literal(ClauseIdx::from(index));
        tracker.set_literal(literal);
        propagated.push(literal);
        check_against_recount(&tracker);
    }
    assert_eq!(propagated, vec![lit(1), lit(2), lit(-3)]);
    assert!(tracker.falsified_clauses().is_empty());
    assert_eq!(tracker.satisfied_clauses().len(), tracker.num_clauses());
}

#[test]
fn random_walks_keep_the_counts_exact() {
    let mut state: u64 = 0x1234_5678_9abc_def1;
    let mut next = move |bound: u64| {
        state ^= state << 13;
        state ^= state >> 7;
        state ^= state << 17;
        state % bound
    };
    for _ in 0..40 {
        let num_variables = 1 + next(6) as usize;
        let mut tracker = Tracker::new(num_variables);
        for _ in 0..200 {
            match next(4) {
                0 => {
                    let width = next(5) as usize;
                    let numbers: Vec<i64> = (0..width)
                        .map(|_| {
                            let variable = 1 + next(num_variables as u64) as i64;
                            if next(2) == 0 { variable } else { -variable }
                        })
                        .collect();
                    tracker.add_clause(clause(&numbers));
                },
                _ => {
                    let variable = 1 + next(num_variables as u64) as usize;
                    if tracker.assignments()[variable - 1].is_some() {
                        tracker.unset(var(variable));
                    } else {
                        let literal = Literal::new(var(variable), next(2) == 0);
                        let before = snapshot(&tracker);
                        tracker.set_literal(literal);
                        if next(3) == 0 {
                            tracker.unset(var(variable));
                            assert_eq!(snapshot(&tracker), before);
                        }
                    }
                },
            }
            check_against_recount(&tracker);
        }
    }
}
