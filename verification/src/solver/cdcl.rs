//! The CDCL engine: unit propagation, and at every conflict a learned
//! clause and a jump back to the level at which that clause forces a
//! literal.

pub mod conflict;
pub mod tracker;
pub mod trail;
pub mod vsids;

use crate::count::{
    count_upto, lemma_count_bound, lemma_count_ext, lemma_count_flip, lemma_count_full,
    lemma_count_zero,
};
use crate::formula::{clause_holds, Clause, Cnf, CnfView, Literal, Model, Variable};
use crate::solver::assignment::{
    complete, completion, is_false_at, is_true_at, lemma_open_clause_has_unassigned,
    lemma_true_literal_holds,
};
use crate::solver::cdcl::tracker::cache::first_clause;
use crate::solver::cdcl::tracker::lemma_bounded_set;
use crate::solver::Solver;
use crate::solver::cdcl::conflict::{
    explained_but, explains, respects, trail_ok, ConflictAnalyzer, ConflictDataProvider,
};
use crate::solver::cdcl::tracker::clause_stat::ClauseStatus;
use crate::solver::cdcl::tracker::store::ClauseIdx;
use crate::solver::cdcl::tracker::{is_forced_by, Tracker};
use crate::solver::cdcl::trail::{
    budget, frames_ok, is_frame, lemma_frames_spread, lemma_level_of_last, lemma_level_prefix,
    lemma_level_splits, lemma_trail_weight_prefix, lemma_weight_dominates, lemma_weight_falls,
    lemma_within_budget, level_at, trail_weight, weight,
};
use vstd::slice::slice_subrange;
use crate::solver::cdcl::vsids::VsidsScoring;
use vstd::pervasive::unreached;
use vstd::prelude::*;

verus! {

/// Why a variable has its value.
#[derive(Debug, Clone, Copy)]
pub enum DecisionReason {
    /// The search chose the value.
    Decision,
    /// The clause forced the value when all its other literals were false.
    UnitPropagation(ClauseIdx),
}

/// The level at which a variable got its value, and why.
#[derive(Debug, Clone, Copy)]
pub struct Decision {
    pub decision_level: usize,
    pub reason: DecisionReason,
}

/// What the conflict analysis sees of the search: the values in the
/// tracker, and for each variable with a value its level and the reason of
/// its value.
pub struct CdclDataProvider<'solver> {
    pub tracker: &'solver Tracker,
    pub decisions: &'solver Vec<Option<Decision>>,
}

impl<'solver> CdclDataProvider<'solver> {
    pub fn new(tracker: &'solver Tracker, decisions: &'solver Vec<Option<Decision>>) -> (provider:
        CdclDataProvider<'solver>)
        ensures
            provider.tracker == tracker,
            provider.decisions == decisions,
    {
        CdclDataProvider { tracker, decisions }
    }

    fn decision_for_variable(&self, variable: Variable) -> (decision: &Decision)
        requires
            self.assigned(variable.0 as int),
        ensures
            Some(*decision) == self.decisions@[variable.0 as int],
    {
        match &self.decisions[variable.index()] {
            Some(decision) => decision,
            None => unreached(),
        }
    }
}

impl<'solver> ConflictDataProvider for CdclDataProvider<'solver> {
    open spec fn assigned(&self, variable: int) -> bool {
        &&& 0 <= variable < self.decisions@.len()
        &&& variable < self.tracker.assignment().len()
        &&& self.tracker.assignment()[variable].is_some()
        &&& self.decisions@[variable] matches Some(decision)
        &&& decision.reason matches DecisionReason::UnitPropagation(clause_index) ==> clause_index.0
            < self.tracker.state().records.len()
    }

    open spec fn value_of(&self, variable: int) -> bool {
        self.tracker.assignment()[variable].unwrap()
    }

    open spec fn level_of(&self, variable: int) -> nat {
        self.decisions@[variable].unwrap().decision_level as nat
    }

    open spec fn antecedent_of(&self, variable: int) -> Option<Seq<Literal>> {
        match self.decisions@[variable].unwrap().reason {
            DecisionReason::UnitPropagation(clause_index) => Some(
                self.tracker.state().records[clause_index.0 as int].original,
            ),
            DecisionReason::Decision => None,
        }
    }

    fn value(&self, variable: Variable) -> (value: bool) {
        match self.tracker.assignments()[variable.index()] {
            Some(value) => value,
            None => unreached(),
        }
    }

    fn level(&self, variable: Variable) -> (level: usize) {
        self.decision_for_variable(variable).decision_level
    }

    fn antecedents(&self, variable: Variable) -> (clause: Option<&Clause>) {
        let decision = self.decision_for_variable(variable);
        if let DecisionReason::UnitPropagation(clause_index) = &decision.reason {
            Some(self.tracker.original_clause(*clause_index))
        } else {
            None
        }
    }
}

/// Whether the clause holds under every total assignment that satisfies the
/// formula.
pub open spec fn entails(formula: CnfView, clause: Seq<Literal>) -> bool {
    forall|total: Seq<bool>| #[trigger] formula.satisfied_by(total) ==> clause_holds(clause, total)
}

/// Whether the literal holds under every total assignment that satisfies
/// the formula.
pub open spec fn entails_literal(formula: CnfView, literal: Literal) -> bool {
    forall|total: Seq<bool>| #[trigger] formula.satisfied_by(total) ==> literal.holds(total)
}

/// Whether the negation of the literal stands on the trail before position
/// `k`.
pub open spec fn refuted_before(stack: Seq<Literal>, k: int, literal: Literal) -> bool {
    exists|q: int| 0 <= q < k && #[trigger] stack[q] == literal.negation()
}

/// Whether the clause forces the literal at position `k` of the trail: each
/// of its literals is that literal or is refuted before `k`.
pub open spec fn forced_at(clause: Seq<Literal>, stack: Seq<Literal>, k: int) -> bool {
    forall|i: int|
        0 <= i < clause.len() ==> #[trigger] clause[i] == stack[k] || refuted_before(
            stack,
            k,
            clause[i],
        )
}

/// Whether the variable has a literal on the trail.
pub open spec fn on_stack(stack: Seq<Literal>, variable: int) -> bool {
    exists|k: int| 0 <= k < stack.len() && (#[trigger] stack[k]).var() == variable
}

/// Whether a variable of the clause has a literal on the trail at or after
/// position `start`.
pub open spec fn touches(clause: Seq<Literal>, stack: Seq<Literal>, start: int) -> bool {
    exists|i: int, q: int|
        0 <= i < clause.len() && start <= q < stack.len() && (#[trigger] stack[q]).var() == (
        #[trigger] clause[i]).var()
}

/// Holds at the variables that have a value.
pub open spec fn has_value_at(partial: Seq<Option<bool>>) -> spec_fn(int) -> bool {
    |v: int| partial[v].is_some()
}

/// The CDCL engine.
pub struct CdclSolver {
    /// The formula to solve.
    formula: Cnf,
    /// The marks of the conflict analysis.
    conflict_analyzer: ConflictAnalyzer,
    /// For each variable with a value, its level and the reason of its
    /// value.
    decisions: Vec<Option<Decision>>,
    /// The assigned literals in the order in which they got their values.
    decision_stack: Vec<Literal>,
    /// The positions of the trail at which a decision opened a level:
    /// `decision_stack[frame[k-1]..frame[k]]` are the literals of level `k`.
    frame: Vec<usize>,
    /// The status of every clause under the current assignment.
    tracker: Tracker,
    /// The scores by which decisions are made.
    score_heuristic: VsidsScoring,
}

impl CdclSolver {
    /// The parts of the engine are of one size, and the clauses of the
    /// tracker are those of the formula followed by clauses that the
    /// formula entails.
    pub closed spec fn shaped(&self) -> bool {
        let n = self.formula@.num_variables;
        &&& self.formula@.wf()
        &&& self.tracker.wf()
        &&& self.tracker.state().num_variables == n
        &&& self.tracker.assignment().len() == n
        &&& self.decisions@.len() == n
        &&& self.conflict_analyzer.idle()
        &&& self.conflict_analyzer.num_variables() == n
        &&& self.score_heuristic.wf()
        &&& self.score_heuristic.num_variables() == n
        &&& self.formula@.clauses.len() <= self.tracker.originals().len()
        &&& forall|c: int|
            0 <= c < self.formula@.clauses.len() ==> #[trigger] self.tracker.originals()[c]
                == self.formula@.clauses[c]
        &&& forall|c: int|
            0 <= c < self.tracker.originals().len() ==> entails(
                self.formula@,
                #[trigger] self.tracker.originals()[c],
            )
    }

    /// What holds of position `k` of the trail: its literal is true, the
    /// level of its variable is the level of the position, and its reason
    /// is a decision where the position opens a level and else a clause
    /// that forces the literal.
    pub closed spec fn position_ok(&self, k: int) -> bool {
        let literal = self.decision_stack@[k];
        &&& literal.var() < self.formula@.num_variables
        &&& self.tracker.assignment()[literal.var()] == Some(literal.positive)
        &&& self.decisions@[literal.var()] matches Some(decision)
        &&& decision.decision_level == level_at(self.frame@, k)
        &&& match decision.reason {
            DecisionReason::Decision => is_frame(self.frame@, k),
            DecisionReason::UnitPropagation(clause_index) => {
                &&& !is_frame(self.frame@, k)
                &&& clause_index.0 < self.tracker.originals().len()
                &&& forced_at(
                    self.tracker.originals()[clause_index.0 as int],
                    self.decision_stack@,
                    k,
                )
            },
        }
        &&& level_at(self.frame@, k) == 0 ==> entails_literal(self.formula@, literal)
    }

    /// The trail, the frames, the decisions and the assignment fit each
    /// other, and the ordered set of the heuristic holds the variables
    /// without a value.
    pub closed spec fn trailed(&self) -> bool {
        let n = self.formula@.num_variables as int;
        let stack = self.decision_stack@;
        let assignment = self.tracker.assignment();
        &&& frames_ok(self.frame@, stack.len() as int)
        &&& forall|k: int| 0 <= k < stack.len() ==> #[trigger] self.position_ok(k)
        &&& forall|j: int, k: int|
            0 <= j < k < stack.len() ==> (#[trigger] stack[j]).var() != (#[trigger] stack[k]).var()
        &&& forall|v: int| 0 <= v < n && (#[trigger] assignment[v]).is_some() ==> on_stack(stack, v)
        &&& forall|v: int|
            0 <= v < n ==> (#[trigger] self.decisions@[v]).is_some() == assignment[v].is_some()
        &&& forall|v: int|
            0 <= v < n ==> #[trigger] self.score_heuristic.present(v) == assignment[v].is_none()
        &&& stack.len() == count_upto(n, has_value_at(assignment))
    }

    /// All but what the search owes to the order of its steps.
    pub closed spec fn wf_core(&self) -> bool {
        &&& self.shaped()
        &&& self.trailed()
    }

    /// Above level zero, every clause whose literals are all false has a
    /// literal of the current level.
    pub closed spec fn no_early_conflict(&self) -> bool {
        self.frame@.len() > 0 ==> forall|c: int|
            0 <= c < self.tracker.state().records.len() && (
            #[trigger] self.tracker.state().records[c]).stat.status == ClauseStatus::Falsified
                ==> touches(
                self.tracker.state().records[c].original,
                self.decision_stack@,
                self.frame@.last() as int,
            )
    }

    /// The state of the engine is consistent.
    pub closed spec fn wf(&self) -> bool {
        &&& self.wf_core()
        &&& self.no_early_conflict()
    }

    /// The assigned literals in the order in which they got their values.
    pub closed spec fn trail(&self) -> Seq<Literal> {
        self.decision_stack@
    }

    /// The positions of the trail at which a decision opened a level.
    pub closed spec fn frames(&self) -> Seq<usize> {
        self.frame@
    }

    /// What is recorded of a variable: its level and the reason of its
    /// value, `None` while it has no value.
    pub closed spec fn decision_of(&self, variable: int) -> Option<Decision> {
        self.decisions@[variable]
    }

    /// The value of each variable.
    pub closed spec fn assignment(&self) -> Seq<Option<bool>> {
        self.tracker.assignment()
    }

    /// Every literal of the trail is true, and what is recorded of its
    /// variable is the level of its position, with a decision as the reason
    /// exactly where the position opens a level.
    pub proof fn lemma_trail_recorded(&self, k: int)
        requires
            self.wf(),
            0 <= k < self.trail().len(),
        ensures
            self.trail()[k].var() < self.assignment().len(),
            self.assignment()[self.trail()[k].var()] == Some(self.trail()[k].positive),
            self.decision_of(self.trail()[k].var()) matches Some(decision)
                && decision.decision_level == level_at(self.frames(), k) && (
            decision.reason is Decision <==> is_frame(self.frames(), k)),
    {
        assert(self.position_ok(k));
    }

    /// A variable has something recorded exactly while it has a value, and
    /// then its literal stands on the trail.
    pub proof fn lemma_recorded_on_trail(&self, variable: int)
        requires
            self.wf(),
            0 <= variable < self.assignment().len(),
        ensures
            self.decision_of(variable).is_some() == self.assignment()[variable].is_some(),
            self.assignment()[variable].is_some() ==> on_stack(self.trail(), variable),
    {
    }

    /// The weight of the trail.
    pub closed spec fn trail_weight(&self) -> nat {
        trail_weight(
            self.frame@,
            self.decision_stack@.len() as int,
            self.formula@.num_variables,
        )
    }

    /// The current decision level.
    fn current_level(&self) -> (level: usize)
        ensures
            level == self.frame@.len(),
    {
        self.frame.len()
    }
}


/// A frame pushed or popped at or after position `len` changes nothing of
/// what holds of the positions before `len`.
proof fn lemma_frames_agree(frame: Seq<usize>, shorter: Seq<usize>, total: int, len: int, k: int)
    requires
        frames_ok(frame, total),
        shorter.len() <= frame.len() <= shorter.len() + 1,
        forall|j: int| 0 <= j < shorter.len() ==> #[trigger] shorter[j] == frame[j],
        shorter.len() < frame.len() ==> len <= frame[shorter.len() as int],
        0 <= k < len,
    ensures
        level_at(shorter, k) == level_at(frame, k),
        is_frame(shorter, k) == is_frame(frame, k),
{
    lemma_level_prefix(frame, shorter, total, k);
    if is_frame(frame, k) {
        let j = choose|j: int| 0 <= j < frame.len() && #[trigger] frame[j] == k;
        assert(shorter[j] == k);
    }
}

/// A clause that forces a position of a trail forces it on every trail
/// that agrees with it up to that position.
proof fn lemma_forced_agree(clause: Seq<Literal>, stack: Seq<Literal>, other: Seq<Literal>, k: int)
    requires
        forced_at(clause, stack, k),
        0 <= k < stack.len(),
        k < other.len(),
        forall|q: int| 0 <= q <= k ==> #[trigger] other[q] == stack[q],
    ensures
        forced_at(clause, other, k),
{
    assert forall|i: int| 0 <= i < clause.len() implies #[trigger] clause[i] == other[k]
        || refuted_before(other, k, clause[i]) by {
        if clause[i] != stack[k] {
            let q = choose|q: int| 0 <= q < k && #[trigger] stack[q] == clause[i].negation();
            assert(other[q] == clause[i].negation());
        }
    }
}

impl CdclSolver {
    /// Puts a literal on the trail, as a decision that opens a level or as
    /// a literal that a clause forces.
    fn push_decision(&mut self, literal: Literal, reason: DecisionReason)
        requires
            old(self).wf_core(),
            literal.var() < old(self).formula@.num_variables,
            old(self).tracker.assignment()[literal.var()].is_none(),
            reason matches DecisionReason::UnitPropagation(clause_index) ==> {
                &&& clause_index.0 < old(self).tracker.originals().len()
                &&& is_forced_by(
                    literal,
                    old(self).tracker.originals()[clause_index.0 as int],
                    old(self).tracker.assignment(),
                )
            },
        ensures
            final(self).wf_core(),
            final(self).formula == old(self).formula,
            final(self).tracker.originals() == old(self).tracker.originals(),
            final(self).tracker.assignment() == old(self).tracker.assignment().update(
                literal.var(),
                Some(literal.positive),
            ),
            final(self).decision_stack@ == old(self).decision_stack@.push(literal),
            final(self).frame@ == if reason is Decision {
                old(self).frame@.push(old(self).decision_stack@.len() as usize)
            } else {
                old(self).frame@
            },
            final(self).trail_weight() == old(self).trail_weight() + 2 * weight(
                old(self).formula@.num_variables,
                final(self).frame@.len(),
            ),
    {
        let ghost formula = self.formula@;
        let ghost n = formula.num_variables as int;
        let ghost stack = self.decision_stack@;
        let ghost frame = self.frame@;
        let ghost assignment = self.tracker.assignment();
        let ghost decisions = self.decisions@;
        let ghost originals = self.tracker.originals();
        let ghost v = literal.var();
        let ghost len = stack.len() as int;
        let ghost before = *self;

        if let DecisionReason::Decision = reason {
            self.frame.push(self.decision_stack.len())
        }
        self.decision_stack.push(literal);
        self.decisions[literal.index()] = Some(
            Decision { decision_level: self.current_level(), reason },
        );
        self.tracker.set_literal(literal);
        self.score_heuristic.remove(literal.variable());

        proof {
            let now_stack = self.decision_stack@;
            let now_frame = self.frame@;
            let now_assignment = self.tracker.assignment();
            assert(frames_ok(now_frame, len + 1)) by {
                assert forall|i: int, j: int| 0 <= i < j < now_frame.len() implies #[trigger] now_frame[i]
                    < #[trigger] now_frame[j] by {}
            }
            lemma_level_of_last(now_frame, len + 1, len);
            lemma_trail_weight_prefix(now_frame, frame, len + 1, len, formula.num_variables);
            assert forall|k: int| 0 <= k < len implies #[trigger] self.position_ok(k) by {
                assert(before.position_ok(k));
                lemma_frames_agree(now_frame, frame, len + 1, len, k);
                match decisions[stack[k].var()].unwrap().reason {
                    DecisionReason::UnitPropagation(clause_index) => {
                        lemma_forced_agree(originals[clause_index.0 as int], stack, now_stack, k);
                    },
                    DecisionReason::Decision => {},
                }
            }
            assert(self.position_ok(len)) by {
                match reason {
                    DecisionReason::UnitPropagation(clause_index) => {
                        let clause = originals[clause_index.0 as int];
                        let position = choose|position: int|
                            {
                                &&& 0 <= position < clause.len()
                                &&& #[trigger] clause[position] == literal
                                &&& forall|i: int|
                                    0 <= i < clause.len() && i != position ==> (
                                    #[trigger] clause[i]).value_under(assignment) == Some(false)
                            };
                        self.tracker.lemma_counts_exact(clause_index.0 as int);
                        assert forall|i: int| 0 <= i < clause.len() implies #[trigger] clause[i]
                            == now_stack[len] || refuted_before(now_stack, len, clause[i]) by {
                            if i != position {
                                let other = clause[i];
                                let q = choose|q: int|
                                    0 <= q < stack.len() && (#[trigger] stack[q]).var() == other.var();
                                assert(before.position_ok(q));
                                assert(now_stack[q] == other.negation());
                            }
                        }
                        if now_frame.len() == 0 {
                            assert forall|total: Seq<bool>| #[trigger]
                                formula.satisfied_by(total) implies literal.holds(total) by {
                                let i = choose|i: int|
                                    0 <= i < clause.len() && (#[trigger] clause[i]).holds(total);
                                if clause[i] != literal {
                                    let q = choose|q: int|
                                        0 <= q < len && #[trigger] now_stack[q] == clause[i].negation();
                                    assert(before.position_ok(q));
                                    lemma_level_of_last(frame, len, q);
                                }
                            }
                        }
                    },
                    DecisionReason::Decision => {
                    },
                }
            }
            assert forall|j: int, k: int| 0 <= j < k < now_stack.len() implies (
            #[trigger] now_stack[j]).var() != (#[trigger] now_stack[k]).var() by {
                assert(before.position_ok(j));
            }
            assert forall|u: int| 0 <= u < n && (#[trigger] now_assignment[u]).is_some() implies on_stack(
                now_stack,
                u,
            ) by {
                if u != v {
                    let k = choose|k: int| 0 <= k < stack.len() && (#[trigger] stack[k]).var() == u;
                    assert(now_stack[k].var() == u);
                }
            }
            lemma_count_flip(n, has_value_at(assignment), has_value_at(now_assignment), v);
        }
    }

    /// Takes the latest literal off the trail, with the level that it may
    /// have opened.
    fn pop_decision(&mut self) -> (popped: Option<(Literal, Decision)>)
        requires
            old(self).wf_core(),
        ensures
            final(self).wf_core(),
            final(self).formula == old(self).formula,
            final(self).tracker.originals() == old(self).tracker.originals(),
            popped.is_none() == (old(self).decision_stack@.len() == 0),
            popped is None ==> {
                &&& final(self).decision_stack@ == old(self).decision_stack@
                &&& final(self).frame@ == old(self).frame@
                &&& final(self).tracker.assignment() == old(self).tracker.assignment()
                &&& final(self).trail_weight() == old(self).trail_weight()
            },
            popped matches Some((literal, decision)) ==> {
                &&& literal == old(self).decision_stack@.last()
                &&& Some(decision) == old(self).decisions@[literal.var()]
                &&& final(self).decision_stack@ == old(self).decision_stack@.drop_last()
                &&& final(self).frame@ == if decision.reason is Decision {
                    old(self).frame@.drop_last()
                } else {
                    old(self).frame@
                }
                &&& decision.reason is Decision ==> old(self).frame@.len() > 0 && old(
                    self,
                ).frame@.last() == old(self).decision_stack@.len() - 1
                &&& final(self).tracker.assignment() == old(self).tracker.assignment().update(
                    literal.var(),
                    None,
                )
                &&& old(self).trail_weight() == final(self).trail_weight() + 2 * weight(
                    old(self).formula@.num_variables,
                    old(self).frame@.len(),
                )
            },
    {
        let ghost formula = self.formula@;
        let ghost n = formula.num_variables as int;
        let ghost stack = self.decision_stack@;
        let ghost frame = self.frame@;
        let ghost assignment = self.tracker.assignment();
        let ghost decisions = self.decisions@;
        let ghost originals = self.tracker.originals();
        let ghost len = stack.len() as int;
        let ghost before = *self;

        match self.decision_stack.pop() {
            None => None,
            Some(literal) => {
                proof {
                    assert(before.position_ok(len - 1));
                }
                self.score_heuristic.insert(literal.variable());
                self.tracker.unset(literal.variable());
                let decision = match self.decisions[literal.index()] {
                    Some(decision) => decision,
                    None => unreached(),
                };
                self.decisions[literal.index()] = None;
                proof {
                    lemma_level_of_last(frame, len, len - 1);
                }
                if let DecisionReason::Decision = decision.reason {
                    self.frame.pop();
                }
                proof {
                    let v = literal.var();
                    let now_stack = self.decision_stack@;
                    let now_frame = self.frame@;
                    let now_assignment = self.tracker.assignment();
                    assert(frames_ok(now_frame, len - 1)) by {
                        assert forall|j: int| 0 <= j < now_frame.len() implies #[trigger] now_frame[j]
                            < len - 1 by {}
                        assert forall|i: int, j: int| 0 <= i < j < now_frame.len() implies #[trigger] now_frame[i]
                            < #[trigger] now_frame[j] by {}
                    }
                    lemma_trail_weight_prefix(frame, now_frame, len, len - 1, formula.num_variables);
                    assert forall|k: int| 0 <= k < len - 1 implies #[trigger] self.position_ok(k) by {
                        assert(before.position_ok(k));
                        lemma_frames_agree(frame, now_frame, len, len - 1, k);
                        match decisions[stack[k].var()].unwrap().reason {
                            DecisionReason::UnitPropagation(clause_index) => {
                                lemma_forced_agree(
                                    originals[clause_index.0 as int],
                                    stack,
                                    now_stack,
                                    k,
                                );
                            },
                            DecisionReason::Decision => {},
                        }
                    }
                    assert forall|j: int, k: int| 0 <= j < k < now_stack.len() implies (
                    #[trigger] now_stack[j]).var() != (#[trigger] now_stack[k]).var() by {}
                    assert forall|u: int|
                        0 <= u < n && (#[trigger] now_assignment[u]).is_some() implies on_stack(
                        now_stack,
                        u,
                    ) by {
                        let k = choose|k: int| 0 <= k < stack.len() && (#[trigger] stack[k]).var() == u;
                        assert(now_stack[k].var() == u);
                    }
                    lemma_count_flip(n, has_value_at(assignment), has_value_at(now_assignment), v);
                }
                Some((literal, decision))
            },
        }
    }
}


impl CdclSolver {
    /// What the conflict analysis asks for holds of a clause whose literals
    /// are all false, above level zero.
    proof fn lemma_analysis_ready(&self, provider: &CdclDataProvider, c: int)
        requires
            self.wf(),
            self.frame@.len() > 0,
            *provider.tracker == self.tracker,
            *provider.decisions == self.decisions,
            0 <= c < self.tracker.state().records.len(),
            self.tracker.state().records[c].stat.status == ClauseStatus::Falsified,
        ensures
            trail_ok(
                provider,
                self.formula@.num_variables as int,
                self.frame@.len(),
                self.decision_stack@.subrange(
                    self.frame@.last() as int,
                    self.decision_stack@.len() as int,
                ),
            ),
            explained_but(
                provider,
                self.formula@.num_variables as int,
                self.frame@.len(),
                self.decision_stack@.subrange(
                    self.frame@.last() as int,
                    self.decision_stack@.len() as int,
                ),
                self.decision_stack@.len() - self.frame@.last(),
                None,
                self.tracker.state().records[c].original,
            ),
            exists|i: int|
                0 <= i < self.tracker.state().records[c].original.len() && provider.level_of(
                    (#[trigger] self.tracker.state().records[c].original[i]).var(),
                ) == self.frame@.len(),
            forall|total: Seq<bool>| #[trigger]
                self.formula@.satisfied_by(total) ==> respects(
                    provider,
                    self.formula@.num_variables as int,
                    self.decision_stack@.subrange(
                        self.frame@.last() as int,
                        self.decision_stack@.len() as int,
                    ),
                    self.tracker.state().records[c].original,
                    total,
                ),
    {
        let n = self.formula@.num_variables as int;
        let level = self.frame@.len();
        let stack = self.decision_stack@;
        let frame = self.frame@;
        let start = frame.last() as int;
        let len = stack.len() as int;
        let trail = stack.subrange(start, len);
        let conflict = self.tracker.state().records[c].original;
        let assignment = self.tracker.assignment();
        let originals = self.tracker.originals();

        // What holds of every literal that is refuted on the trail before a
        // position.
        assert forall|k: int, literal: Literal|
            0 <= k <= len && refuted_before(stack, k, literal) implies #[trigger] explains(
            provider,
            n,
            level,
            trail,
            k - start,
            literal,
        ) by {
            let q = choose|q: int| 0 <= q < k && #[trigger] stack[q] == literal.negation();
            assert(self.position_ok(q));
            lemma_level_splits(frame, len, q);
            lemma_level_of_last(frame, len, q);
            if provider.level_of(literal.var()) == level {
                assert(trail[q - start].var() == literal.var());
            }
        }

        assert forall|q: int| 0 <= q < trail.len() implies {
            &&& (#[trigger] trail[q]).var() < n
            &&& provider.assigned(trail[q].var())
            &&& provider.value_of(trail[q].var()) == trail[q].positive
            &&& provider.level_of(trail[q].var()) == level
        } by {
            assert(self.position_ok(start + q));
            lemma_level_of_last(frame, len, start + q);
        }
        assert forall|q: int, r: int| 0 <= q < r < trail.len() implies (#[trigger] trail[q]).var() != (
        #[trigger] trail[r]).var() by {}
        assert forall|q: int| 0 < q < trail.len() implies {
            &&& provider.antecedent_of((#[trigger] trail[q]).var()).is_some()
            &&& explained_but(
                provider,
                n,
                level,
                trail,
                q,
                Some(trail[q]),
                provider.antecedent_of(trail[q].var()).unwrap(),
            )
        } by {
            let k = start + q;
            assert(self.position_ok(k));
            let reason = provider.antecedent_of(trail[q].var()).unwrap();
            assert forall|i: int| 0 <= i < reason.len() implies Some(#[trigger] reason[i]) == Some(
                trail[q],
            ) || explains(provider, n, level, trail, q, reason[i]) by {
                if reason[i] != stack[k] {
                    assert(explains(provider, n, level, trail, k - start, reason[i]));
                }
            }
        }

        self.tracker.lemma_counts_exact(c);
        lemma_count_full(conflict.len() as int, is_false_at(conflict, assignment));
        assert forall|i: int| 0 <= i < conflict.len() implies refuted_before(
            stack,
            len,
            #[trigger] conflict[i],
        ) by {
            assert(is_false_at(conflict, assignment)(i));
            let u = conflict[i].var();
            let q = choose|q: int| 0 <= q < stack.len() && (#[trigger] stack[q]).var() == u;
            assert(self.position_ok(q));
        }
        assert forall|i: int| 0 <= i < conflict.len() implies Some(#[trigger] conflict[i])
            == None::<Literal> || explains(provider, n, level, trail, len - start, conflict[i]) by {}

        let (i, q) = choose|i: int, q: int|
            0 <= i < conflict.len() && start <= q < stack.len() && (#[trigger] stack[q]).var() == (
            #[trigger] conflict[i]).var();
        assert(self.position_ok(q));
        lemma_level_of_last(frame, len, q);

        assert forall|total: Seq<bool>| #[trigger] self.formula@.satisfied_by(total) implies respects(
            provider,
            n,
            trail,
            conflict,
            total,
        ) by {
            assert(entails(self.formula@, originals[c]));
            assert forall|q: int| 0 < q < trail.len() implies clause_holds(
                provider.antecedent_of((#[trigger] trail[q]).var()).unwrap(),
                total,
            ) by {
                let k = start + q;
                assert(self.position_ok(k));
            }
            assert forall|u: int|
                0 <= u < n && provider.assigned(u) && provider.level_of(u) == 0
                    implies #[trigger] total[u] == provider.value_of(u) by {
                let k = choose|k: int| 0 <= k < stack.len() && (#[trigger] stack[k]).var() == u;
                assert(self.position_ok(k));
            }
        }
    }

    /// The greatest level below `current_level` among the levels of the
    /// literals of a clause, `None` where no literal is of a lower level.
    fn second_highest_level(&self, clause: &Clause, current_level: usize) -> (second: Option<usize>)
        requires
            self.decisions@.len() == self.formula@.num_variables,
            forall|k: int|
                0 <= k < clause@.len() ==> (#[trigger] clause@[k]).var() < self.decisions@.len()
                    && self.decisions@[clause@[k].var()].is_some(),
        ensures
            match second {
                Some(level) => {
                    &&& level < current_level
                    &&& exists|k: int|
                        0 <= k < clause@.len() && self.decisions@[(#[trigger] clause@[k]).var()].unwrap().decision_level
                            == level
                    &&& forall|k: int|
                        0 <= k < clause@.len() && self.decisions@[(#[trigger] clause@[k]).var()].unwrap().decision_level
                            < current_level ==> self.decisions@[clause@[k].var()].unwrap().decision_level
                            <= level
                },
                None => forall|k: int|
                    0 <= k < clause@.len() ==> self.decisions@[(#[trigger] clause@[k]).var()].unwrap().decision_level
                        >= current_level,
            },
    {
        let mut second: Option<usize> = None;
        let mut position: usize = 0;
        while position < clause.num_literals()
            invariant
                position <= clause@.len(),
                forall|k: int|
                    0 <= k < clause@.len() ==> (#[trigger] clause@[k]).var() < self.decisions@.len()
                        && self.decisions@[clause@[k].var()].is_some(),
                match second {
                    Some(level) => {
                        &&& level < current_level
                        &&& exists|k: int|
                            0 <= k < position && self.decisions@[(#[trigger] clause@[k]).var()].unwrap().decision_level
                                == level
                        &&& forall|k: int|
                            0 <= k < position && self.decisions@[(#[trigger] clause@[k]).var()].unwrap().decision_level
                                < current_level ==> self.decisions@[clause@[k].var()].unwrap().decision_level
                                <= level
                    },
                    None => forall|k: int|
                        0 <= k < position ==> self.decisions@[(#[trigger] clause@[k]).var()].unwrap().decision_level
                            >= current_level,
                },
            decreases clause@.len() - position,
        {
            let literal = clause.literal(position);
            let level = match self.decisions[literal.index()] {
                Some(decision) => decision.decision_level,
                None => unreached(),
            };
            if level < current_level {
                second = match second {
                    Some(best) => if best < level {
                        Some(level)
                    } else {
                        Some(best)
                    },
                    None => Some(level),
                };
            }
            position += 1;
        }
        second
    }

    /// What a clause that has just been learned is like: it is the last
    /// clause of the tracker, its literals are all false, its last literal
    /// is of the current level, and the others are of levels up to
    /// `rewind_until`.
    pub closed spec fn learned_for(&self, rewind_until: int) -> bool {
        let learned = self.tracker.originals().last();
        let assignment = self.tracker.assignment();
        &&& self.tracker.originals().len() > 0
        &&& learned.len() > 0
        &&& 0 <= rewind_until < self.frame@.len()
        &&& forall|k: int|
            0 <= k < learned.len() ==> {
                &&& (#[trigger] learned[k]).var() < self.formula@.num_variables
                &&& assignment[learned[k].var()] == Some(!learned[k].positive)
                &&& self.decisions@[learned[k].var()].is_some()
            }
        &&& self.decisions@[learned.last().var()].unwrap().decision_level == self.frame@.len()
        &&& forall|k: int|
            0 <= k < learned.len() - 1 ==> self.decisions@[(#[trigger] learned[k]).var()].unwrap().decision_level
                <= rewind_until
        &&& forall|j: int, k: int|
            0 <= j < k < learned.len() ==> (#[trigger] learned[j]).var() != (#[trigger] learned[k]).var()
    }

    /// Learns a clause from a clause whose literals are all false: the
    /// clause of the first unique implication point is added to the
    /// tracker and its variables are bumped. Returns the level to jump back
    /// to.
    fn learn(&mut self, conflict_clause_index: usize) -> (rewind_until: usize)
        requires
            old(self).wf(),
            old(self).frame@.len() > 0,
            conflict_clause_index < old(self).tracker.state().records.len(),
            old(self).tracker.state().records[conflict_clause_index as int].stat.status
                == ClauseStatus::Falsified,
        ensures
            final(self).wf(),
            final(self).formula == old(self).formula,
            final(self).decision_stack@ == old(self).decision_stack@,
            final(self).frame@ == old(self).frame@,
            final(self).decisions@ == old(self).decisions@,
            final(self).tracker.assignment() == old(self).tracker.assignment(),
            final(self).learned_for(rewind_until as int),
    {
        let ghost before = *self;
        let ghost formula = self.formula@;
        let ghost n = formula.num_variables as int;
        let ghost stack = self.decision_stack@;
        let ghost frame = self.frame@;
        let ghost assignment = self.tracker.assignment();
        let ghost originals = self.tracker.originals();
        let current_level = self.current_level();
        let start = self.frame[self.frame.len() - 1];

        let data_provider = CdclDataProvider::new(&self.tracker, &self.decisions);
        let conflicting_clause = self.tracker.original_clause(ClauseIdx::from(conflict_clause_index));
        proof {
            before.lemma_analysis_ready(&data_provider, conflict_clause_index as int);
        }
        let clause_to_learn = self.conflict_analyzer.analyze(
            &data_provider,
            current_level,
            conflicting_clause,
            slice_subrange(self.decision_stack.as_slice(), start, self.decision_stack.len()),
        );
        let ghost learned = clause_to_learn@;
        proof {
            assert forall|k: int| 0 <= k < learned.len() implies {
                &&& (#[trigger] learned[k]).var() < n
                &&& assignment[learned[k].var()] == Some(!learned[k].positive)
                &&& self.decisions@[learned[k].var()].is_some()
                &&& self.decisions@[learned[k].var()].unwrap().decision_level == data_provider.level_of(
                    learned[k].var(),
                )
            } by {}
            assert(entails(formula, learned)) by {
                assert forall|total: Seq<bool>| #[trigger]
                    formula.satisfied_by(total) implies clause_holds(learned, total) by {}
            }
        }

        let second_max = self.second_highest_level(&clause_to_learn, current_level);
        self.score_heuristic.decay();
        let rewind_until = match second_max {
            None => 0,
            Some(val) => {
                self.score_heuristic.learn_clause(&clause_to_learn);
                val
            },
        };

        self.tracker.add_clause(clause_to_learn);

        proof {
            let now = self.tracker.originals();
            assert forall|c: int| 0 <= c < now.len() implies entails(formula, #[trigger] now[c]) by {}
            assert forall|c: int| 0 <= c < formula.clauses.len() implies #[trigger] now[c]
                == formula.clauses[c] by {}
            assert forall|k: int| 0 <= k < stack.len() implies #[trigger] self.position_ok(k) by {
                assert(before.position_ok(k));
            }
            assert forall|c: int|
                0 <= c < self.tracker.state().records.len() && (
                #[trigger] self.tracker.state().records[c]).stat.status
                    == ClauseStatus::Falsified implies touches(
                self.tracker.state().records[c].original,
                stack,
                start as int,
            ) by {
                self.tracker.lemma_counts_exact(c);
                assert(self.tracker.state().records[c].original == now[c]);
                if c < originals.len() {
                    before.tracker.lemma_counts_exact(c);
                } else {
                    let uip = learned.last();
                    let q = choose|q: int| 0 <= q < stack.len() && (#[trigger] stack[q]).var() == uip.var();
                    lemma_level_of_last(frame, stack.len() as int, q);
                }
            }
        }
        rewind_until
    }
}


impl CdclSolver {
    /// Takes literals off the trail until the current level is
    /// `rewind_until`.
    fn backjump(&mut self, rewind_until: usize)
        requires
            old(self).wf_core(),
            rewind_until < old(self).frame@.len(),
        ensures
            final(self).wf_core(),
            final(self).formula == old(self).formula,
            final(self).tracker.originals() == old(self).tracker.originals(),
            final(self).frame@ == old(self).frame@.take(rewind_until as int),
            final(self).decision_stack@ == old(self).decision_stack@.take(
                old(self).frame@[rewind_until as int] as int,
            ),
            final(self).trail_weight() + 2 * (old(self).decision_stack@.len() - old(
                self,
            ).frame@[rewind_until as int]) * weight(
                old(self).formula@.num_variables,
                (rewind_until + 1) as nat,
            ) >= old(self).trail_weight(),
    {
        let ghost n = self.formula@.num_variables;
        let ghost stack = self.decision_stack@;
        let ghost frame = self.frame@;
        let ghost heavy = weight(n, (rewind_until + 1) as nat);
        while self.current_level() > rewind_until
            invariant
                self.wf_core(),
                self.formula == old(self).formula,
                self.tracker.originals() == old(self).tracker.originals(),
                n == self.formula@.num_variables,
                stack == old(self).decision_stack@,
                frame == old(self).frame@,
                heavy == weight(n, (rewind_until + 1) as nat),
                frames_ok(frame, stack.len() as int),
                rewind_until < frame.len(),
                rewind_until <= self.frame@.len() <= frame.len(),
                self.frame@ == frame.take(self.frame@.len() as int),
                self.decision_stack@.len() <= stack.len(),
                self.decision_stack@ == stack.take(self.decision_stack@.len() as int),
                self.frame@.len() < frame.len() ==> self.decision_stack@.len()
                    <= frame[self.frame@.len() as int],
                self.decision_stack@.len() >= frame[rewind_until as int],
                self.trail_weight() + 2 * (stack.len() - self.decision_stack@.len()) * heavy
                    >= old(self).trail_weight(),
            decreases self.decision_stack@.len(),
        {
            let ghost now_frame = self.frame@;
            let ghost now_stack = self.decision_stack@;
            let ghost gone = stack.len() - now_stack.len();
            proof {
                lemma_weight_falls(n, (rewind_until + 1) as nat, now_frame.len());
            }
            self.pop_decision();
            proof {
                assert(2 * (gone + 1) * heavy == 2 * gone * heavy + 2 * heavy) by (nonlinear_arith);
            }
        }
    }

    /// After a clause has been learned and the search has jumped back, the
    /// learned clause has status `Unit` and no clause has all its literals
    /// false.
    proof fn lemma_jumped_back(learned: &CdclSolver, jumped: &CdclSolver, rewind_until: int)
        requires
            learned.wf(),
            learned.learned_for(rewind_until),
            jumped.wf_core(),
            jumped.formula == learned.formula,
            jumped.tracker.originals() == learned.tracker.originals(),
            jumped.frame@ == learned.frame@.take(rewind_until),
            jumped.decision_stack@ == learned.decision_stack@.take(
                learned.frame@[rewind_until] as int,
            ),
        ensures
            jumped.wf(),
            jumped.tracker.state().unit.contains((learned.tracker.originals().len() - 1) as usize),
    {
        let n = learned.formula@.num_variables as int;
        let stack = learned.decision_stack@;
        let frame = learned.frame@;
        let len = stack.len() as int;
        let cut = frame[rewind_until] as int;
        let before = learned.tracker.assignment();
        let after = jumped.tracker.assignment();
        let originals = learned.tracker.originals();
        let clause = originals.last();
        let c = originals.len() - 1;

        // A variable keeps its value where its literal stands before the
        // cut, and has none where its literal stands at or after the cut.
        assert forall|q: int| 0 <= q < len implies after[(#[trigger] stack[q]).var()] == if q < cut {
            before[stack[q].var()]
        } else {
            None
        } by {
            assert(learned.position_ok(q));
            if q < cut {
                assert(jumped.position_ok(q));
            }
        }
        assert forall|u: int| 0 <= u < n && (#[trigger] after[u]).is_some() implies after[u]
            == before[u] by {}

        // The learned clause: every literal but the last is still false,
        // and the variable of the last has no value.
        assert forall|k: int| 0 <= k < clause.len() implies (#[trigger] clause[k]).value_under(after)
            == if k < clause.len() - 1 {
            Some(false)
        } else {
            None
        } by {
            let u = clause[k].var();
            let q = choose|q: int| 0 <= q < stack.len() && (#[trigger] stack[q]).var() == u;
            assert(learned.position_ok(q));
            lemma_level_splits(frame, len, q);
            lemma_level_of_last(frame, len, q);
        }
        let falsified = is_false_at(clause, after);
        let all = |k: int| true;
        lemma_count_full(clause.len() as int, all);
        lemma_count_flip(clause.len() as int, all, falsified, clause.len() - 1);
        lemma_count_zero(clause.len() as int, is_true_at(clause, after));
        jumped.tracker.lemma_counts_exact(c);
        jumped.tracker.lemma_filed_once(ClauseStatus::Unit, c as usize);

        // No clause has all its literals false.
        assert forall|d: int|
            0 <= d < jumped.tracker.state().records.len() implies (
        #[trigger] jumped.tracker.state().records[d]).stat.status != ClauseStatus::Falsified by {
            if jumped.tracker.state().records[d].stat.status == ClauseStatus::Falsified {
                jumped.tracker.lemma_counts_exact(d);
                learned.tracker.lemma_counts_exact(d);
                let other = originals[d];
                lemma_count_full(other.len() as int, is_false_at(other, after));
                assert forall|i: int| 0 <= i < other.len() implies #[trigger] is_false_at(other, before)(
                    i,
                ) by {
                    assert(is_false_at(other, after)(i));
                }
                lemma_count_full(other.len() as int, is_false_at(other, before));
                let (i, q) = choose|i: int, q: int|
                    0 <= i < other.len() && frame.last() <= q < stack.len() && (
                    #[trigger] stack[q]).var() == (#[trigger] other[i]).var();
                assert(is_false_at(other, after)(i));
            }
        }
    }

    /// Learns from a clause whose literals are all false and jumps back to
    /// the level at which the learned clause forces a literal.
    fn resolve_conflict(&mut self, conflict_clause_index: usize)
        requires
            old(self).wf(),
            old(self).frame@.len() > 0,
            conflict_clause_index < old(self).tracker.state().records.len(),
            old(self).tracker.state().records[conflict_clause_index as int].stat.status
                == ClauseStatus::Falsified,
        ensures
            final(self).wf(),
            final(self).formula == old(self).formula,
            final(self).frame@.len() < old(self).frame@.len(),
            exists|c: usize| final(self).tracker.state().unit.contains(c),
            final(self).trail_weight() + weight(
                old(self).formula@.num_variables,
                final(self).frame@.len(),
            ) > old(self).trail_weight() + weight(
                old(self).formula@.num_variables,
                old(self).frame@.len(),
            ),
    {
        let ghost n = self.formula@.num_variables;
        let rewind_until = self.learn(conflict_clause_index);
        let ghost learned = *self;
        self.backjump(rewind_until);
        proof {
            Self::lemma_jumped_back(&learned, self, rewind_until as int);
            let stack = learned.decision_stack@;
            let frame = learned.frame@;
            let gone = stack.len() - frame[rewind_until as int];
            lemma_count_bound(n as int, has_value_at(learned.tracker.assignment()));
            lemma_frames_spread(frame, stack.len() as int);
            lemma_weight_dominates(n, rewind_until as nat, gone as nat);
            lemma_weight_falls(n, (rewind_until + 1) as nat, frame.len());
        }
    }

    /// Where a clause has all its literals false at level zero, the formula
    /// has no model.
    proof fn lemma_conflict_at_root(&self, c: int)
        requires
            self.wf(),
            self.frame@.len() == 0,
            0 <= c < self.tracker.state().records.len(),
            self.tracker.state().records[c].stat.status == ClauseStatus::Falsified,
        ensures
            !self.formula@.satisfiable(),
    {
        let formula = self.formula@;
        let stack = self.decision_stack@;
        let assignment = self.tracker.assignment();
        let clause = self.tracker.originals()[c];
        self.tracker.lemma_counts_exact(c);
        lemma_count_full(clause.len() as int, is_false_at(clause, assignment));
        assert forall|total: Seq<bool>| !formula.satisfied_by(total) by {
            if formula.satisfied_by(total) {
                let i = choose|i: int| 0 <= i < clause.len() && (#[trigger] clause[i]).holds(total);
                assert(is_false_at(clause, assignment)(i));
                let u = clause[i].var();
                let q = choose|q: int| 0 <= q < stack.len() && (#[trigger] stack[q]).var() == u;
                assert(self.position_ok(q));
                lemma_level_of_last(self.frame@, stack.len() as int, q);
            }
        }
    }

    /// After a literal has been put on the trail in a state in which no
    /// clause had all its literals false, every clause that now has them all
    /// false holds the variable of that literal.
    proof fn lemma_pushed(before: &CdclSolver, after: &CdclSolver, literal: Literal)
        requires
            before.wf_core(),
            after.wf_core(),
            forall|c: usize| !before.tracker.state().falsified.contains(c),
            literal.var() < before.formula@.num_variables,
            after.formula == before.formula,
            after.tracker.originals() == before.tracker.originals(),
            after.tracker.assignment() == before.tracker.assignment().update(
                literal.var(),
                Some(literal.positive),
            ),
            after.decision_stack@ == before.decision_stack@.push(literal),
        ensures
            after.wf(),
    {
        let stack = after.decision_stack@;
        let len = before.decision_stack@.len() as int;
        let was = before.tracker.assignment();
        let now = after.tracker.assignment();
        if after.frame@.len() > 0 {
            assert forall|c: int|
                0 <= c < after.tracker.state().records.len() && (
                #[trigger] after.tracker.state().records[c]).stat.status
                    == ClauseStatus::Falsified implies touches(
                after.tracker.state().records[c].original,
                stack,
                after.frame@.last() as int,
            ) by {
                let clause = after.tracker.originals()[c];
                after.tracker.lemma_counts_exact(c);
                before.tracker.lemma_counts_exact(c);
                before.tracker.lemma_filed_once(ClauseStatus::Falsified, c as usize);
                if forall|i: int| 0 <= i < clause.len() ==> (#[trigger] clause[i]).var() != literal.var() {
                    assert forall|i: int| 0 <= i < clause.len() implies #[trigger] is_false_at(
                        clause,
                        was,
                    )(i) == is_false_at(clause, now)(i) by {}
                    lemma_count_ext(
                        clause.len() as int,
                        is_false_at(clause, was),
                        is_false_at(clause, now),
                    );
                } else {
                    let i = choose|i: int|
                        0 <= i < clause.len() && (#[trigger] clause[i]).var() == literal.var();
                    assert(stack[len].var() == clause[i].var());
                }
            }
        }
    }

    /// Where not every clause has a true literal, none has all its literals
    /// false and none is unit, some variable has no value and so is in the
    /// ordered set of the heuristic.
    proof fn lemma_can_decide(&self) -> (variable: int)
        requires
            self.wf(),
            self.tracker.state().satisfied.len() != self.tracker.state().records.len(),
            forall|c: usize| !self.tracker.state().falsified.contains(c),
            forall|c: usize| !self.tracker.state().unit.contains(c),
        ensures
            0 <= variable < self.formula@.num_variables,
            self.tracker.assignment()[variable].is_none(),
            self.score_heuristic.present(variable),
    {
        let state = self.tracker.state();
        let m = state.records.len();
        assert forall|c: usize| state.satisfied.contains(c) implies c < m by {
            self.tracker.lemma_filed_once(ClauseStatus::Satisfied, c);
        }
        lemma_bounded_set(state.satisfied, m);
        let c = choose|c: usize| c < m && !state.satisfied.contains(c);
        self.tracker.lemma_filed_once(ClauseStatus::Satisfied, c);
        self.tracker.lemma_filed_once(ClauseStatus::Falsified, c);
        self.tracker.lemma_filed_once(ClauseStatus::Unit, c);
        self.tracker.lemma_counts_exact(c as int);
        let clause = state.records[c as int].original;
        let i = lemma_open_clause_has_unassigned(clause, self.tracker.assignment());
        clause[i].var()
    }

    /// Where every clause has a true literal, the completion of the
    /// assignment satisfies the formula.
    proof fn lemma_all_satisfied(&self)
        requires
            self.wf(),
            self.tracker.state().satisfied.len() == self.tracker.state().records.len(),
        ensures
            self.formula@.satisfied_by(completion(self.tracker.assignment())),
    {
        let state = self.tracker.state();
        let m = state.records.len();
        let assignment = self.tracker.assignment();
        let total = completion(assignment);
        assert forall|c: usize| state.satisfied.contains(c) implies c < m by {
            self.tracker.lemma_filed_once(ClauseStatus::Satisfied, c);
        }
        lemma_bounded_set(state.satisfied, m);
        assert forall|c: int| 0 <= c < self.formula@.clauses.len() implies clause_holds(
            #[trigger] self.formula@.clauses[c],
            total,
        ) by {
            self.tracker.lemma_filed_once(ClauseStatus::Satisfied, c as usize);
            self.tracker.lemma_counts_exact(c);
            assert(state.records[c].original == self.tracker.originals()[c]);
            lemma_true_literal_holds(self.formula@.clauses[c], assignment, total);
        }
    }
}

impl Solver for CdclSolver {
    closed spec fn formula(&self) -> CnfView {
        self.formula@
    }

    closed spec fn ready(&self) -> bool {
        self.wf()
    }

    fn new(formula: Cnf) -> (solver: CdclSolver) {
        let tracker = Tracker::from_cnf(&formula);
        let score_heuristic = VsidsScoring::new(&tracker);

        let num_variables = formula.num_variables();
        let mut decisions: Vec<Option<Decision>> = Vec::new();
        let mut variable: usize = 0;
        while variable < num_variables
            invariant
                variable <= num_variables,
                decisions@.len() == variable,
                forall|v: int| 0 <= v < variable ==> (#[trigger] decisions@[v]).is_none(),
            decreases num_variables - variable,
        {
            decisions.push(None);
            variable += 1;
        }
        let solver = CdclSolver {
            formula,
            conflict_analyzer: ConflictAnalyzer::new(num_variables),
            decisions,
            decision_stack: Vec::new(),
            frame: Vec::new(),
            tracker,
            score_heuristic,
        };
        proof {
            lemma_count_zero(num_variables as int, has_value_at(solver.tracker.assignment()));
            assert forall|c: int| 0 <= c < solver.tracker.originals().len() implies entails(
                solver.formula@,
                #[trigger] solver.tracker.originals()[c],
            ) by {}
        }
        solver
    }

    fn solve(self) -> (model: Option<Model>) {
        let mut solver = self;
        let ghost n = self.formula@.num_variables;
        let ghost mut pending = false;
        proof {
            lemma_count_bound(n as int, has_value_at(solver.tracker.assignment()));
            lemma_within_budget(
                solver.frame@,
                solver.decision_stack@.len() as int,
                n,
                solver.frame@.len(),
            );
        }
        while solver.tracker.satisfied_clauses().len() != solver.tracker.num_clauses()
            invariant
                solver.wf(),
                solver.formula == self.formula,
                n == self.formula@.num_variables,
                pending ==> exists|c: usize| solver.tracker.state().unit.contains(c),
                solver.trail_weight() + weight(n, solver.frame@.len()) <= budget(n),
            decreases
                    budget(n) - solver.trail_weight() - if pending {
                        weight(n, solver.frame@.len())
                    } else {
                        0
                    },
        {
            let ghost before = solver;
            proof {
                lemma_weight_falls(n, 0, solver.frame@.len());
            }
            // Learn from a clause whose literals are all false.
            if let Some(conflict_clause_index) = first_clause(solver.tracker.falsified_clauses()) {
                proof {
                    solver.tracker.lemma_filed_once(ClauseStatus::Falsified, conflict_clause_index);
                }
                // A conflict at the root: the formula has no model.
                if solver.current_level() == 0 {
                    proof {
                        solver.lemma_conflict_at_root(conflict_clause_index as int);
                    }
                    return None;
                }
                solver.resolve_conflict(conflict_clause_index);
                proof {
                    pending = true;
                }
            } else {
                let unit = first_clause(solver.tracker.unit_clauses());
                if let Some(clause_idx) = unit {
                    // Unit propagation.
                    proof {
                        solver.tracker.lemma_filed_once(ClauseStatus::Unit, clause_idx);
                    }
                    let literal = solver.tracker.get_unit_clause_literal(ClauseIdx::from(clause_idx));
                    solver.push_decision(
                        literal,
                        DecisionReason::UnitPropagation(ClauseIdx::from(clause_idx)),
                    );
                    proof {
                        Self::lemma_pushed(&before, &solver, literal);
                        pending = false;
                    }
                } else {
                    // A new decision, by the scores.
                    proof {
                        before.lemma_can_decide();
                    }
                    let variable = solver.score_heuristic.top();
                    let literal = Literal::new(variable, true);
                    solver.push_decision(literal, DecisionReason::Decision);
                    proof {
                        Self::lemma_pushed(&before, &solver, literal);
                        lemma_weight_falls(n, before.frame@.len(), solver.frame@.len());
                    }
                }
            }
            proof {
                lemma_count_bound(n as int, has_value_at(solver.tracker.assignment()));
                lemma_within_budget(
                    solver.frame@,
                    solver.decision_stack@.len() as int,
                    n,
                    solver.frame@.len(),
                );
                lemma_weight_falls(n, 0, solver.frame@.len());
            }
        }

        // Every clause has a true literal: the variables without a value
        // are made true.
        proof {
            solver.lemma_all_satisfied();
        }
        let assignment = complete(solver.tracker.assignments());
        Some(Model::new(solver.formula, assignment))
    }
}

} // verus!
