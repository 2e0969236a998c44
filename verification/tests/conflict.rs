use satire::formula::{Clause, Literal, Variable};
use satire::solver::cdcl::conflict::{ConflictAnalyzer, ConflictDataProvider, Session};
use satire::solver::cdcl::tracker::store::ClauseIdx;
use satire::solver::cdcl::tracker::Tracker;
use satire::solver::cdcl::{CdclDataProvider, Decision, DecisionReason};

fn lit(number: i64) -> Literal {
    let index = (number.unsigned_abs() - 1) as usize;
    Literal::new(Variable::from_index(index).unwrap(), number > 0)
}

fn clause(numbers: &[i64]) -> Clause {
    Clause::new(numbers.iter().map(|&number| lit(number)).collect())
}

/// An implication graph written down by hand: the clauses that force
/// literals, the assigned literals, and for each of them its level and the
/// clause that forced it.
struct Graph {
    tracker: Tracker,
    decisions: Vec<Option<Decision>>,
}

impl Graph {
    fn new(num_variables: usize) -> Graph {
        Graph {
            tracker: Tracker::new(num_variables),
            decisions: (0..num_variables).map(|_| None).collect(),
        }
    }

    fn decide(&mut self, literal: Literal, level: usize) {
        self.tracker.set_literal(literal);
        self.decisions[literal.index()] =
            Some(Decision { decision_level: level, reason: DecisionReason::Decision });
    }

    fn force(&mut self, literal: Literal, level: usize, reason: &[i64]) {
        let index = ClauseIdx::from(self.tracker.num_clauses());
        self.tracker.add_clause(clause(reason));
        assert_eq!(self.tracker.get_unit_clause_literal(index), literal);
        self.tracker.set_literal(literal);
        self.decisions[literal.index()] = Some(Decision {
            decision_level: level,
            reason: DecisionReason::UnitPropagation(index),
        });
    }

    fn provider(&self) -> CdclDataProvider<'_> {
        CdclDataProvider::new(&self.tracker, &self.decisions)
    }
}

fn sorted(clause: &Clause) -> Vec<(usize, bool)> {
    let mut literals: Vec<(usize, bool)> =
        clause.iter().iter().map(|literal| (literal.index(), literal.positive())).collect();
    literals.sort();
    literals
}

#[test]
fn decision_is_the_implication_point_of_a_direct_conflict() {
    // Level 1 decides x1, which forces x2 and x3, and -x2 or -x3 fails.
    let mut graph = Graph::new(3);
    graph.decide(lit(1), 1);
    graph.force(lit(2), 1, &[-1, 2]);
    graph.force(lit(3), 1, &[-1, 3]);
    let mut analyzer = ConflictAnalyzer::new(3);
    let learned = analyzer.analyze(&graph.provider(), 1, &clause(&[-2, -3]), &[lit(1), lit(2), lit(3)]);
    assert_eq!(learned.iter(), vec![lit(-1)]);
}

#[test]
fn first_implication_point_is_nearest_to_the_conflict() {
    // Level 1 decides x1. Level 2 decides x2, which forces x3; x3 with x1
    // forces x4 and x5, which cannot both hold.
    let mut graph = Graph::new(5);
    graph.decide(lit(1), 1);
    graph.decide(lit(2), 2);
    graph.force(lit(3), 2, &[-2, 3]);
    graph.force(lit(4), 2, &[-3, -1, 4]);
    graph.force(lit(5), 2, &[-3, 5]);
    let mut analyzer = ConflictAnalyzer::new(5);
    let learned =
        analyzer.analyze(&graph.provider(), 2, &clause(&[-4, -5]), &[lit(2), lit(3), lit(4), lit(5)]);
    assert_eq!(sorted(&learned), vec![(0, false), (2, false)]);
    assert_eq!(learned.iter().last(), Some(&lit(-3)));
    // The analyzer can be used again.
    let again = analyzer.analyze(&graph.provider(), 2, &clause(&[-4, -5]), &[lit(2), lit(3), lit(4), lit(5)]);
    assert_eq!(sorted(&again), sorted(&learned));
}

#[test]
fn literals_of_level_zero_are_left_out() {
    // x1 holds at level 0. Level 1 decides x2, which with x1 forces x3, and
    // -x3 or -x1 fails.
    let mut graph = Graph::new(3);
    graph.force(lit(1), 0, &[1]);
    graph.decide(lit(2), 1);
    graph.force(lit(3), 1, &[-2, -1, 3]);
    let mut analyzer = ConflictAnalyzer::new(3);
    let learned = analyzer.analyze(&graph.provider(), 1, &clause(&[-3, -1]), &[lit(2), lit(3)]);
    assert_eq!(learned.iter(), vec![lit(-3)]);
}

#[test]
fn learned_clause_has_one_literal_of_the_current_level() {
    // Levels 1 to 3 decide x1, x2 and x3; at level 3, x3 forces x4, x4 and
    // x1 force x5, x4 and x2 force x6, and x5 and x6 cannot both hold.
    let mut graph = Graph::new(6);
    graph.decide(lit(1), 1);
    graph.decide(lit(2), 2);
    graph.decide(lit(3), 3);
    graph.force(lit(4), 3, &[-3, 4]);
    graph.force(lit(5), 3, &[-4, -1, 5]);
    graph.force(lit(6), 3, &[-4, -2, 6]);
    let mut analyzer = ConflictAnalyzer::new(6);
    let trail = [lit(3), lit(4), lit(5), lit(6)];
    let learned = analyzer.analyze(&graph.provider(), 3, &clause(&[-5, -6]), &trail);
    assert_eq!(sorted(&learned), vec![(0, false), (1, false), (3, false)]);
    let provider = graph.provider();
    let of_current_level =
        learned.iter().iter().filter(|literal| provider.level(literal.variable()) == 3).count();
    assert_eq!(of_current_level, 1);
    assert!(learned
        .iter()
        .iter()
        .all(|literal| provider.value(literal.variable()) != literal.positive()));
    assert!(provider.antecedents(lit(3).variable()).is_none());
    assert_eq!(provider.antecedents(lit(5).variable()).unwrap().iter(), vec![lit(-4), lit(-1), lit(5)]);
}

#[test]
fn session_counts_and_records_by_level() {
    let mut graph = Graph::new(4);
    graph.force(lit(1), 0, &[1]);
    graph.decide(lit(2), 1);
    graph.decide(lit(3), 2);
    graph.force(lit(4), 2, &[-3, 4]);
    let mut analyzer = ConflictAnalyzer::new(4);
    let provider = graph.provider();
    let mut session = Session::new(&mut analyzer, &provider, 2);
    session.add_clause(&clause(&[-1, -2, -3, -4, -2]));
    assert!(session.seen(lit(1).variable()));
    assert!(session.seen(lit(4).variable()));
    assert_eq!(session.unresolved_on_current_level, 2);
    assert_eq!(session.recorded, vec![lit(-2)]);
    let recorded = session.finish();
    assert_eq!(recorded.iter(), vec![lit(-2)]);
    assert!(analyzer.seen.iter().all(|&seen| !seen));
    assert!(analyzer.seen_queue.is_empty());
}
