//! The DPLL engine: a depth-first search over partial assignments that
//! assigns the literal of a unit clause where there is one and branches on
//! the first unassigned variable where there is none.

use crate::count::{
    count_upto, lemma_count_bound, lemma_count_ext, lemma_count_flip, lemma_count_full,
    lemma_count_witness, lemma_count_zero,
};
use crate::formula::{clause_in_range, Cnf, CnfView, Literal, Model, Variable};
use crate::solver::assignment::{
    complete, completion, extends, false_count, is_literal_at, lemma_counts_after_assign,
    lemma_counts_fit, lemma_counts_unassigned, lemma_falsified_fails,
    lemma_occurrences_grow, lemma_occurrences_push, lemma_open_clause_has_unassigned,
    lemma_true_literal_holds, lemma_unit_forces, literal_count, occurrences, true_count,
};
use crate::solver::Solver;
use std::ops::Not;
use vstd::pervasive::unreached;
use vstd::prelude::*;

verus! {

/// For each literal, the clauses that hold it: a clause is named once for
/// each position at which it holds the literal.
#[derive(Debug)]
pub struct Watch {
    positive: Vec<Vec<usize>>,
    negative: Vec<Vec<usize>>,
}

impl Watch {
    /// The clauses named for a literal.
    pub closed spec fn row(&self, literal: Literal) -> Seq<usize> {
        if literal.positive {
            self.positive@[literal.var()]@
        } else {
            self.negative@[literal.var()]@
        }
    }

    /// The number of variables that the index has rows for.
    pub closed spec fn num_variables(&self) -> nat {
        self.positive@.len()
    }

    /// The index has a row for each literal, and the rows name what the
    /// first `clauses_done` clauses hold and what the first `literals_done`
    /// literals of the next clause hold.
    pub closed spec fn filled(
        &self,
        formula: CnfView,
        clauses_done: int,
        literals_done: int,
    ) -> bool {
        &&& self.positive@.len() == formula.num_variables
        &&& self.negative@.len() == formula.num_variables
        &&& forall|literal: Literal, t: int|
            literal.var() < formula.num_variables && 0 <= t < self.row(literal).len()
                ==> #[trigger] self.row(literal)[t] < formula.clauses.len()
        &&& forall|literal: Literal, c: int|
            literal.var() < formula.num_variables && 0 <= c < formula.clauses.len()
                ==> #[trigger] occurrences(self.row(literal), c, self.row(literal).len() as int)
                == if c < clauses_done {
                literal_count(formula.clauses[c], literal)
            } else if c == clauses_done {
                count_upto(literals_done, is_literal_at(formula.clauses[c], literal))
            } else {
                0
            }
    }

    /// The index is the one of the formula.
    pub closed spec fn wf(&self, formula: CnfView) -> bool {
        self.filled(formula, formula.clauses.len() as int, 0)
    }

    /// Builds the index of a formula.
    pub fn new(formula: &Cnf) -> (watch: Watch)
        ensures
            watch.wf(formula@),
    {
        let num_variables = formula.num_variables();
        let clauses = formula.clauses();
        let mut watch = Watch { positive: Vec::new(), negative: Vec::new() };
        let mut variable: usize = 0;
        while variable < num_variables
            invariant
                variable <= num_variables,
                watch.positive@.len() == variable,
                watch.negative@.len() == variable,
                forall|v: int| 0 <= v < variable ==> (#[trigger] watch.positive@[v])@.len() == 0,
                forall|v: int| 0 <= v < variable ==> (#[trigger] watch.negative@[v])@.len() == 0,
            decreases num_variables - variable,
        {
            watch.positive.push(Vec::new());
            watch.negative.push(Vec::new());
            variable += 1;
        }
        let mut index: usize = 0;
        while index < clauses.len()
            invariant
                index <= clauses@.len(),
                num_variables == formula@.num_variables,
                formula@.wf(),
                clauses@.len() == formula@.clauses.len(),
                forall|c: int|
                    0 <= c < clauses@.len() ==> (#[trigger] clauses@[c])@ == formula@.clauses[c],
                watch.filled(formula@, index as int, 0),
            decreases clauses@.len() - index,
        {
            let clause = &clauses[index];
            let mut position: usize = 0;
            while position < clause.num_literals()
                invariant
                    position <= clause@.len(),
                    index < clauses@.len(),
                    clauses@.len() == formula@.clauses.len(),
                    clause@ == formula@.clauses[index as int],
                    clause_in_range(clause@, formula@.num_variables as int),
                    watch.filled(formula@, index as int, position as int),
                decreases clause@.len() - position,
            {
                let literal = clause.literal(position);
                let ghost before = watch;
                if literal.positive() {
                    watch.positive[literal.index()].push(index);
                } else {
                    watch.negative[literal.index()].push(index);
                }
                proof {
                    assert(watch.row(literal) == before.row(literal).push(index));
                    assert forall|other: Literal| other != literal && other.var() < formula@.num_variables implies watch.row(other) == before.row(other) by {}
                    assert forall|other: Literal, c: int|
                        other.var() < formula@.num_variables && 0 <= c
                            < formula@.clauses.len() implies #[trigger] occurrences(
                        watch.row(other),
                        c,
                        watch.row(other).len() as int,
                    ) == if c < index {
                        literal_count(formula@.clauses[c], other)
                    } else if c == index {
                        count_upto(position + 1, is_literal_at(formula@.clauses[c], other))
                    } else {
                        0
                    } by {
                        if other == literal {
                            lemma_occurrences_push(before.row(other), index, c);
                        }
                    }
                }
                position += 1;
            }
            index += 1;
        }
        watch
    }

    fn row_len(&self, literal: Literal) -> (len: usize)
        requires
            literal.var() < self.num_variables(),
            self.positive@.len() == self.negative@.len(),
        ensures
            len == self.row(literal).len(),
    {
        if literal.positive() {
            self.positive[literal.index()].len()
        } else {
            self.negative[literal.index()].len()
        }
    }

    fn entry(&self, literal: Literal, t: usize) -> (clause: usize)
        requires
            literal.var() < self.num_variables(),
            self.positive@.len() == self.negative@.len(),
            t < self.row(literal).len(),
        ensures
            clause == self.row(literal)[t as int],
    {
        if literal.positive() {
            self.positive[literal.index()][t]
        } else {
            self.negative[literal.index()][t]
        }
    }
}

/// How many literals of a clause are true and how many are false.
#[derive(Clone, Copy, Debug)]
pub struct ClauseStat {
    /// The number of literals of the clause that are true.
    satisfied: usize,
    /// The number of literals of the clause that are false.
    unsatisfied: usize,
}

/// Holds at the clauses with a true literal.
spec fn is_satisfied_at(stats: Seq<ClauseStat>) -> spec_fn(int) -> bool {
    |c: int| stats[c].satisfied > 0
}

/// Holds at the clauses whose literals are all false.
spec fn is_falsified_at(stats: Seq<ClauseStat>, clauses: Seq<Seq<Literal>>) -> spec_fn(int) -> bool {
    |c: int| stats[c].unsatisfied == clauses[c].len()
}

/// Holds at the variables that have a value.
spec fn is_assigned_at(partial: Seq<Option<bool>>) -> spec_fn(int) -> bool {
    |v: int| partial[v].is_some()
}

/// Whether no total assignment that extends the partial one satisfies the
/// formula.
pub open spec fn refuted(formula: CnfView, partial: Seq<Option<bool>>) -> bool {
    forall|total: Seq<bool>| #[trigger] extends(total, partial) ==> !formula.satisfied_by(total)
}

/// The DPLL engine.
#[derive(Debug)]
pub struct DpllSolver {
    formula: Cnf,
    watch: Watch,
    /// The value of each variable, `None` while it has none.
    assignment: Vec<Option<bool>>,
    /// The counts of each clause.
    clause_stats: Vec<ClauseStat>,
    /// The number of clauses with a true literal.
    satisfied_clauses: usize,
    /// The number of clauses whose literals are all false.
    unsatisfied_clauses: usize,
    /// The assigned literals, the latest last.
    assigned_stack: Vec<Literal>,
}

impl DpllSolver {
    /// The vectors have the lengths that the formula asks for and the index
    /// is the one of the formula.
    closed spec fn shaped(&self) -> bool {
        let f = self.formula@;
        &&& f.wf()
        &&& self.assignment@.len() == f.num_variables
        &&& self.clause_stats@.len() == f.clauses.len()
        &&& self.watch.wf(f)
        &&& forall|c: int| 0 <= c < f.clauses.len() ==> (#[trigger] f.clauses[c]).len() <= usize::MAX
    }

    /// The two totals count the clauses that the counts of the clauses show
    /// as satisfied and as falsified.
    closed spec fn totalled(&self) -> bool {
        let f = self.formula@;
        &&& self.satisfied_clauses == count_upto(
            f.clauses.len() as int,
            is_satisfied_at(self.clause_stats@),
        )
        &&& self.unsatisfied_clauses == count_upto(
            f.clauses.len() as int,
            is_falsified_at(self.clause_stats@, f.clauses),
        )
    }

    /// The counts of each clause are the numbers of its true and of its
    /// false literals.
    closed spec fn counted(&self) -> bool {
        let f = self.formula@;
        forall|c: int|
            0 <= c < f.clauses.len() ==> {
                &&& (#[trigger] self.clause_stats@[c]).satisfied == true_count(
                    f.clauses[c],
                    self.assignment@,
                )
                &&& self.clause_stats@[c].unsatisfied == false_count(f.clauses[c], self.assignment@)
            }
    }

    /// The stack holds the assigned literals.
    closed spec fn stacked(&self) -> bool {
        let f = self.formula@;
        &&& self.assigned_stack@.len() == count_upto(
            f.num_variables as int,
            is_assigned_at(self.assignment@),
        )
        &&& forall|k: int|
            0 <= k < self.assigned_stack@.len() ==> {
                &&& (#[trigger] self.assigned_stack@[k]).var() < f.num_variables
                &&& self.assignment@[self.assigned_stack@[k].var()] == Some(
                    self.assigned_stack@[k].positive,
                )
            }
        &&& forall|j: int, k: int|
            0 <= j < k < self.assigned_stack@.len() ==> (#[trigger] self.assigned_stack@[j]).var()
                != (#[trigger] self.assigned_stack@[k]).var()
    }

    /// The state of the engine is consistent.
    pub closed spec fn wf(&self) -> bool {
        &&& self.shaped()
        &&& self.totalled()
        &&& self.counted()
        &&& self.stacked()
    }

    /// The value of each variable during the search.
    pub closed spec fn partial(&self) -> Seq<Option<bool>> {
        self.assignment@
    }

    /// The clauses of the formula that the engine searches.
    pub closed spec fn clauses(&self) -> Seq<Seq<Literal>> {
        self.formula@.clauses
    }

    /// The recorded counts of a clause: the number of its literals that are
    /// counted as true and the number that are counted as false.
    pub closed spec fn counts(&self, c: int) -> (nat, nat) {
        (self.clause_stats@[c].satisfied as nat, self.clause_stats@[c].unsatisfied as nat)
    }

    /// The recorded counts of every clause are the numbers of its literals
    /// that are true and that are false under the current assignment.
    pub proof fn lemma_counts_exact(&self, c: int)
        requires
            self.wf(),
            0 <= c < self.clauses().len(),
        ensures
            self.counts(c) == (
                true_count(self.clauses()[c], self.partial()),
                false_count(self.clauses()[c], self.partial()),
            ),
    {
    }

    /// The literal stands in a clause that has no true literal and whose
    /// other literals are all false, and its variable has no value.
    pub closed spec fn is_unit_literal(&self, literal: Literal) -> bool {
        exists|c: int, i: int|
            {
                &&& 0 <= c < self.formula@.clauses.len()
                &&& 0 <= i < self.formula@.clauses[c].len()
                &&& #[trigger] self.formula@.clauses[c][i] == literal
                &&& self.is_unit_clause(c)
                &&& literal.value_under(self.assignment@).is_none()
            }
    }

    /// The clause has no true literal and all but one of its literals are
    /// false.
    pub closed spec fn is_unit_clause(&self, c: int) -> bool {
        &&& true_count(self.formula@.clauses[c], self.assignment@) == 0
        &&& false_count(self.formula@.clauses[c], self.assignment@) + 1
            == self.formula@.clauses[c].len()
    }

    /// The value of a literal under the current assignment.
    fn assigned_value(&self, literal: Literal) -> (value: Option<bool>)
        requires
            literal.var() < self.assignment@.len(),
        ensures
            value == literal.value_under(self.assignment@),
    {
        literal.partial_value(self.assignment.as_slice())
    }

    /// The literal that a clause forces, where the clause is unit.
    fn forced_assignment(&self, clause_index: usize) -> (forced: Option<Literal>)
        requires
            self.wf(),
            clause_index < self.formula@.clauses.len(),
        ensures
            forced.is_some() == self.is_unit_clause(clause_index as int),
            forced matches Some(literal) ==> self.is_unit_literal(literal),
    {
        let clauses = self.formula.clauses();
        let clause = &clauses[clause_index];
        let stat = self.clause_stats[clause_index];
        let ghost c = clause_index as int;
        if stat.satisfied == 0 && clause.num_literals() > 0 && stat.unsatisfied
            == clause.num_literals() - 1 {
            let mut position: usize = 0;
            while position < clause.num_literals()
                invariant
                    position <= clause@.len(),
                    self.wf(),
                    c == clause_index as int,
                    0 <= c < self.formula@.clauses.len(),
                    clause@ == self.formula@.clauses[c],
                    self.is_unit_clause(c),
                    forall|i: int|
                        0 <= i < position ==> (#[trigger] clause@[i]).value_under(
                            self.assignment@,
                        ).is_some(),
                decreases clause@.len() - position,
            {
                let literal = clause.literal(position);
                if self.assigned_value(literal).is_none() {
                    return Some(literal);
                }
                position += 1;
            }
            proof {
                lemma_open_clause_has_unassigned(clause@, self.assignment@);
            }
            unreached()
        } else {
            None
        }
    }

    /// The literal that the first unit clause forces, where there is a unit
    /// clause.
    fn search_unit_clause(&self) -> (forced: Option<Literal>)
        requires
            self.wf(),
        ensures
            forced matches Some(literal) ==> self.is_unit_literal(literal),
            forced is None ==> forall|c: int|
                0 <= c < self.formula@.clauses.len() ==> !self.is_unit_clause(c),
    {
        let num_clauses = self.formula.clauses().len();
        let mut clause_index: usize = 0;
        while clause_index < num_clauses
            invariant
                clause_index <= num_clauses,
                num_clauses == self.formula@.clauses.len(),
                self.wf(),
                forall|c: int| 0 <= c < clause_index ==> !self.is_unit_clause(c),
            decreases num_clauses - clause_index,
        {
            if let Some(literal) = self.forced_assignment(clause_index) {
                return Some(literal);
            }
            clause_index += 1;
        }
        None
    }

    /// The first variable without a value.
    fn first_unassigned(&self) -> (variable: Variable)
        requires
            self.wf(),
            exists|v: int| 0 <= v < self.assignment@.len() && (#[trigger] self.assignment@[v]).is_none(),
        ensures
            variable.0 < self.assignment@.len(),
            self.assignment@[variable.0 as int].is_none(),
            forall|v: int| 0 <= v < variable.0 ==> (#[trigger] self.assignment@[v]).is_some(),
    {
        let mut index: usize = 0;
        while index < self.assignment.len()
            invariant
                index <= self.assignment@.len(),
                self.wf(),
                forall|v: int| 0 <= v < index ==> (#[trigger] self.assignment@[v]).is_some(),
            decreases self.assignment@.len() - index,
        {
            if self.assignment[index].is_none() {
                match Variable::from_index(index) {
                    Some(variable) => {
                        return variable;
                    },
                    None => {},
                }
            }
            index += 1;
        }
        unreached()
    }

    /// Gives the literal's variable the value that makes the literal true.
    fn assign_literal(&mut self, literal: Literal)
        requires
            old(self).wf(),
            literal.var() < old(self).formula@.num_variables,
            old(self).assignment@[literal.var()].is_none(),
        ensures
            final(self).wf(),
            final(self).formula@ == old(self).formula@,
            final(self).assignment@ == old(self).assignment@.update(
                literal.var(),
                Some(literal.positive),
            ),
            final(self).assigned_stack@ == old(self).assigned_stack@.push(literal),
    {
        let ghost f = self.formula@;
        let ghost before = self.assignment@;
        let ghost after = before.update(literal.var(), Some(literal.positive));
        let ghost m = f.clauses.len() as int;
        self.assigned_stack.push(literal);
        self.assignment[literal.index()] = Some(literal.positive());
        proof {
            lemma_count_flip(
                f.num_variables as int,
                is_assigned_at(before),
                is_assigned_at(after),
                literal.var(),
            );
            assert forall|c: int| 0 <= c < m implies true_count(#[trigger] f.clauses[c], after)
                == true_count(f.clauses[c], before) + literal_count(f.clauses[c], literal)
                && false_count(f.clauses[c], after) == false_count(f.clauses[c], before)
                + literal_count(f.clauses[c], literal.negation()) && true_count(
                f.clauses[c],
                after,
            ) + false_count(f.clauses[c], after) <= f.clauses[c].len() by {
                lemma_counts_after_assign(f.clauses[c], before, literal);
                lemma_counts_fit(f.clauses[c], after);
            }
        }

        let ghost row = self.watch.row(literal);
        let len = self.watch.row_len(literal);
        let mut t: usize = 0;
        while t < len
            invariant
                t <= len,
                len == row.len(),
                row == self.watch.row(literal),
                literal.var() < f.num_variables,
                m == f.clauses.len(),
                self.formula@ == f,
                self.shaped(),
                self.totalled(),
                self.assignment@ == after,
                self.assigned_stack@ == old(self).assigned_stack@.push(literal),
                forall|c: int|
                    0 <= c < m ==> (#[trigger] self.clause_stats@[c]).satisfied == true_count(
                        f.clauses[c],
                        before,
                    ) + occurrences(row, c, t as int) && self.clause_stats@[c].unsatisfied
                        == false_count(f.clauses[c], before),
                forall|c: int|
                    0 <= c < m ==> true_count(#[trigger] f.clauses[c], after) == true_count(
                        f.clauses[c],
                        before,
                    ) + literal_count(f.clauses[c], literal) && true_count(f.clauses[c], after)
                        <= f.clauses[c].len(),
            decreases len - t,
        {
            let clause_index = self.watch.entry(literal, t);
            let ghost stats = self.clause_stats@;
            proof {
                lemma_occurrences_grow(row, clause_index as int, t + 1, row.len() as int);
                lemma_count_bound(m, is_satisfied_at(stats));
                lemma_count_full(m, is_satisfied_at(stats));
                assert(m == self.clause_stats.len());
                if stats[clause_index as int].satisfied == 0 {
                    assert(!is_satisfied_at(stats)(clause_index as int));
                }
            }
            if self.clause_stats[clause_index].satisfied == 0 {
                self.satisfied_clauses += 1;
            }
            self.clause_stats[clause_index].satisfied += 1;
            proof {
                lemma_count_flip(
                    m,
                    is_satisfied_at(stats),
                    is_satisfied_at(self.clause_stats@),
                    clause_index as int,
                );
                lemma_count_ext(
                    m,
                    is_falsified_at(stats, f.clauses),
                    is_falsified_at(self.clause_stats@, f.clauses),
                );
            }
            t += 1;
        }

        let negated = literal.not();
        let ghost row = self.watch.row(negated);
        let len = self.watch.row_len(negated);
        let mut t: usize = 0;
        while t < len
            invariant
                t <= len,
                len == row.len(),
                row == self.watch.row(negated),
                negated == literal.negation(),
                literal.var() < f.num_variables,
                m == f.clauses.len(),
                self.formula@ == f,
                self.shaped(),
                self.totalled(),
                self.assignment@ == after,
                self.assigned_stack@ == old(self).assigned_stack@.push(literal),
                forall|c: int|
                    0 <= c < m ==> (#[trigger] self.clause_stats@[c]).satisfied == true_count(
                        f.clauses[c],
                        after,
                    ) && self.clause_stats@[c].unsatisfied == false_count(f.clauses[c], before)
                        + occurrences(row, c, t as int),
                forall|c: int|
                    0 <= c < m ==> false_count(#[trigger] f.clauses[c], after) == false_count(
                        f.clauses[c],
                        before,
                    ) + literal_count(f.clauses[c], negated) && false_count(f.clauses[c], after)
                        <= f.clauses[c].len(),
            decreases len - t,
        {
            let clause_index = self.watch.entry(negated, t);
            let ghost stats = self.clause_stats@;
            proof {
                lemma_occurrences_grow(row, clause_index as int, t + 1, row.len() as int);
                lemma_count_bound(m, is_falsified_at(stats, f.clauses));
                lemma_count_full(m, is_falsified_at(stats, f.clauses));
                assert(m == self.clause_stats.len());
                if stats[clause_index as int].unsatisfied != f.clauses[clause_index as int].len() {
                    assert(!is_falsified_at(stats, f.clauses)(clause_index as int));
                }
            }
            let num_literals = self.formula.clauses()[clause_index].num_literals();
            self.clause_stats[clause_index].unsatisfied += 1;
            if self.clause_stats[clause_index].unsatisfied == num_literals {
                self.unsatisfied_clauses += 1;
            }
            proof {
                lemma_count_flip(
                    m,
                    is_falsified_at(stats, f.clauses),
                    is_falsified_at(self.clause_stats@, f.clauses),
                    clause_index as int,
                );
                lemma_count_ext(m, is_satisfied_at(stats), is_satisfied_at(self.clause_stats@));
            }
            t += 1;
        }
        proof {
            assert forall|k: int| 0 <= k < self.assigned_stack@.len() implies (
            #[trigger] self.assigned_stack@[k]).var() < f.num_variables && self.assignment@[self.assigned_stack@[k].var()]
                == Some(self.assigned_stack@[k].positive) by {}
        }
    }

    /// Takes back the latest assignment.
    fn pop_assignment(&mut self)
        requires
            old(self).wf(),
            old(self).assigned_stack@.len() > 0,
        ensures
            final(self).wf(),
            final(self).formula@ == old(self).formula@,
            final(self).assignment@ == old(self).assignment@.update(
                old(self).assigned_stack@.last().var(),
                None,
            ),
            final(self).assigned_stack@ == old(self).assigned_stack@.drop_last(),
    {
        let ghost f = self.formula@;
        let ghost before = self.assignment@;
        let ghost m = f.clauses.len() as int;
        let popped = self.assigned_stack.pop();
        let literal = match popped {
            Some(literal) => literal,
            None => unreached(),
        };
        self.assignment[literal.index()] = None;
        let ghost after = self.assignment@;
        proof {
            assert(before =~= after.update(literal.var(), Some(literal.positive)));
            lemma_count_flip(
                f.num_variables as int,
                is_assigned_at(before),
                is_assigned_at(after),
                literal.var(),
            );
            assert forall|c: int| 0 <= c < m implies true_count(#[trigger] f.clauses[c], before)
                == true_count(f.clauses[c], after) + literal_count(f.clauses[c], literal)
                && false_count(f.clauses[c], before) == false_count(f.clauses[c], after)
                + literal_count(f.clauses[c], literal.negation()) && false_count(
                f.clauses[c],
                before,
            ) <= f.clauses[c].len() by {
                lemma_counts_after_assign(f.clauses[c], after, literal);
                lemma_counts_fit(f.clauses[c], before);
            }
        }

        let ghost row = self.watch.row(literal);
        let len = self.watch.row_len(literal);
        let mut t: usize = 0;
        while t < len
            invariant
                t <= len,
                len == row.len(),
                row == self.watch.row(literal),
                literal.var() < f.num_variables,
                m == f.clauses.len(),
                self.formula@ == f,
                self.shaped(),
                self.totalled(),
                self.assignment@ == after,
                old(self).assigned_stack@.len() > 0,
                self.assigned_stack@ == old(self).assigned_stack@.drop_last(),
                forall|c: int|
                    0 <= c < m ==> (#[trigger] self.clause_stats@[c]).satisfied + occurrences(
                        row,
                        c,
                        t as int,
                    ) == true_count(f.clauses[c], before) && self.clause_stats@[c].unsatisfied
                        == false_count(f.clauses[c], before),
                forall|c: int|
                    0 <= c < m ==> true_count(#[trigger] f.clauses[c], before) == true_count(
                        f.clauses[c],
                        after,
                    ) + literal_count(f.clauses[c], literal),
            decreases len - t,
        {
            let clause_index = self.watch.entry(literal, t);
            let ghost stats = self.clause_stats@;
            proof {
                lemma_occurrences_grow(row, clause_index as int, t + 1, row.len() as int);
                lemma_count_bound(m, is_satisfied_at(stats));
                if stats[clause_index as int].satisfied == 1 {
                    assert(is_satisfied_at(stats)(clause_index as int));
                    lemma_count_zero(m, is_satisfied_at(stats));
                }
            }
            if self.clause_stats[clause_index].satisfied == 1 {
                self.satisfied_clauses -= 1;
            }
            self.clause_stats[clause_index].satisfied -= 1;
            proof {
                lemma_count_flip(
                    m,
                    is_satisfied_at(stats),
                    is_satisfied_at(self.clause_stats@),
                    clause_index as int,
                );
                lemma_count_ext(
                    m,
                    is_falsified_at(stats, f.clauses),
                    is_falsified_at(self.clause_stats@, f.clauses),
                );
            }
            t += 1;
        }

        let negated = literal.not();
        let ghost row = self.watch.row(negated);
        let len = self.watch.row_len(negated);
        let mut t: usize = 0;
        while t < len
            invariant
                t <= len,
                len == row.len(),
                row == self.watch.row(negated),
                negated == literal.negation(),
                literal.var() < f.num_variables,
                m == f.clauses.len(),
                self.formula@ == f,
                self.shaped(),
                self.totalled(),
                self.assignment@ == after,
                old(self).assigned_stack@.len() > 0,
                self.assigned_stack@ == old(self).assigned_stack@.drop_last(),
                forall|c: int|
                    0 <= c < m ==> (#[trigger] self.clause_stats@[c]).satisfied == true_count(
                        f.clauses[c],
                        after,
                    ) && self.clause_stats@[c].unsatisfied + occurrences(row, c, t as int)
                        == false_count(f.clauses[c], before),
                forall|c: int|
                    0 <= c < m ==> false_count(#[trigger] f.clauses[c], before) == false_count(
                        f.clauses[c],
                        after,
                    ) + literal_count(f.clauses[c], negated) && false_count(f.clauses[c], before)
                        <= f.clauses[c].len(),
            decreases len - t,
        {
            let clause_index = self.watch.entry(negated, t);
            let ghost stats = self.clause_stats@;
            proof {
                lemma_occurrences_grow(row, clause_index as int, t + 1, row.len() as int);
                lemma_count_bound(m, is_falsified_at(stats, f.clauses));
                if is_falsified_at(stats, f.clauses)(clause_index as int) {
                    lemma_count_zero(m, is_falsified_at(stats, f.clauses));
                }
            }
            let num_literals = self.formula.clauses()[clause_index].num_literals();
            if self.clause_stats[clause_index].unsatisfied == num_literals {
                self.unsatisfied_clauses -= 1;
            }
            self.clause_stats[clause_index].unsatisfied -= 1;
            proof {
                lemma_count_flip(
                    m,
                    is_falsified_at(stats, f.clauses),
                    is_falsified_at(self.clause_stats@, f.clauses),
                    clause_index as int,
                );
                lemma_count_ext(m, is_satisfied_at(stats), is_satisfied_at(self.clause_stats@));
            }
            t += 1;
        }
        proof {
            assert forall|k: int| 0 <= k < self.assigned_stack@.len() implies (
            #[trigger] self.assigned_stack@[k]).var() < f.num_variables && self.assignment@[self.assigned_stack@[k].var()]
                == Some(self.assigned_stack@[k].positive) by {}
        }
    }
}


impl DpllSolver {
    /// Where every clause has a true literal, the completion of the current
    /// assignment satisfies the formula.
    proof fn lemma_all_satisfied(&self)
        requires
            self.wf(),
            self.satisfied_clauses == self.formula@.clauses.len(),
        ensures
            self.formula@.satisfied_by(completion(self.assignment@)),
    {
        let f = self.formula@;
        let total = completion(self.assignment@);
        lemma_count_full(f.clauses.len() as int, is_satisfied_at(self.clause_stats@));
        assert forall|c: int| 0 <= c < f.clauses.len() implies crate::formula::clause_holds(
            #[trigger] f.clauses[c],
            total,
        ) by {
            assert(is_satisfied_at(self.clause_stats@)(c));
            lemma_true_literal_holds(f.clauses[c], self.assignment@, total);
        }
    }

    /// Where some clause has only false literals, no total assignment that
    /// extends the current one satisfies the formula.
    proof fn lemma_some_falsified(&self)
        requires
            self.wf(),
            self.unsatisfied_clauses > 0,
        ensures
            refuted(self.formula@, self.assignment@),
    {
        let f = self.formula@;
        let c = lemma_count_witness(
            f.clauses.len() as int,
            is_falsified_at(self.clause_stats@, f.clauses),
        );
        assert forall|total: Seq<bool>| #[trigger]
            extends(total, self.assignment@) implies !f.satisfied_by(total) by {
            lemma_falsified_fails(f.clauses[c], self.assignment@, total);
        }
    }

    /// Where not every clause has a true literal and none has all its
    /// literals false, some variable has no value.
    proof fn lemma_some_unassigned(&self)
        requires
            self.wf(),
            self.satisfied_clauses != self.formula@.clauses.len(),
            self.unsatisfied_clauses == 0,
        ensures
            exists|v: int|
                0 <= v < self.assignment@.len() && (#[trigger] self.assignment@[v]).is_none(),
    {
        let f = self.formula@;
        let m = f.clauses.len() as int;
        lemma_count_full(m, is_satisfied_at(self.clause_stats@));
        let c = choose|c: int| 0 <= c < m && !#[trigger] is_satisfied_at(self.clause_stats@)(c);
        lemma_count_zero(m, is_falsified_at(self.clause_stats@, f.clauses));
        assert(!is_falsified_at(self.clause_stats@, f.clauses)(c));
        let i = lemma_open_clause_has_unassigned(f.clauses[c], self.assignment@);
    }

    /// A total assignment that extends the current one and satisfies the
    /// formula makes the literal of a unit clause true.
    proof fn lemma_unit_literal_forced(&self, literal: Literal, total: Seq<bool>)
        requires
            self.wf(),
            self.is_unit_literal(literal),
            extends(total, self.assignment@),
            self.formula@.satisfied_by(total),
        ensures
            literal.holds(total),
            literal.var() < self.formula@.num_variables,
            self.assignment@[literal.var()].is_none(),
    {
        let f = self.formula@;
        let (c, i) = choose|c: int, i: int|
            {
                &&& 0 <= c < f.clauses.len()
                &&& 0 <= i < f.clauses[c].len()
                &&& #[trigger] f.clauses[c][i] == literal
                &&& self.is_unit_clause(c)
                &&& literal.value_under(self.assignment@).is_none()
            };
        lemma_unit_forces(f.clauses[c], self.assignment@, i, total);
    }

    /// The variable of the literal of a unit clause has no value.
    proof fn lemma_unit_literal_unassigned(&self, literal: Literal)
        requires
            self.wf(),
            self.is_unit_literal(literal),
        ensures
            literal.var() < self.formula@.num_variables,
            self.assignment@[literal.var()].is_none(),
    {
        let f = self.formula@;
        let (c, i) = choose|c: int, i: int|
            {
                &&& 0 <= c < f.clauses.len()
                &&& 0 <= i < f.clauses[c].len()
                &&& #[trigger] f.clauses[c][i] == literal
                &&& self.is_unit_clause(c)
                &&& literal.value_under(self.assignment@).is_none()
            };
    }

    /// Searches the total assignments that extend the current one.
    ///
    /// Gives one that satisfies the formula where there is one; where there
    /// is none, gives `None` and leaves the assignment as it found it.
    fn search(&mut self) -> (found: Option<Vec<bool>>)
        requires
            old(self).wf(),
        ensures
            final(self).wf(),
            final(self).formula@ == old(self).formula@,
            found matches Some(total) ==> old(self).formula@.satisfied_by(total@),
            found is None ==> final(self).assignment@ == old(self).assignment@,
            found is None ==> final(self).assigned_stack@ == old(self).assigned_stack@,
            found is None ==> refuted(old(self).formula@, old(self).assignment@),
        decreases old(self).formula@.num_variables - old(self).assigned_stack@.len(),
    {
        let ghost f = self.formula@;
        let ghost start = self.assignment@;
        proof {
            lemma_count_bound(f.num_variables as int, is_assigned_at(start));
        }
        if self.satisfied_clauses == self.formula.clauses().len() {
            proof {
                self.lemma_all_satisfied();
            }
            return Some(complete(self.assignment.as_slice()));
        } else if self.unsatisfied_clauses > 0 {
            proof {
                self.lemma_some_falsified();
            }
            return None;
        }
        if let Some(literal) = self.search_unit_clause() {
            proof {
                self.lemma_unit_literal_unassigned(literal);
            }
            let ghost forced = *self;
            self.assign_literal(literal);
            proof {
                lemma_count_bound(f.num_variables as int, is_assigned_at(self.assignment@));
            }
            if let Some(total) = self.search() {
                return Some(total);
            }
            self.pop_assignment();
            proof {
                let narrowed = start.update(literal.var(), Some(literal.positive));
                assert forall|total: Seq<bool>| #[trigger] extends(total, start) implies !f.satisfied_by(
                    total,
                ) by {
                    if f.satisfied_by(total) {
                        forced.lemma_unit_literal_forced(literal, total);
                        assert(extends(total, narrowed));
                    }
                }
            }
            None
        } else {
            proof {
                self.lemma_some_unassigned();
            }
            let variable = self.first_unassigned();
            let literal = Literal::new(variable, true);

            self.assign_literal(literal);
            proof {
                lemma_count_bound(f.num_variables as int, is_assigned_at(self.assignment@));
            }
            if let Some(total) = self.search() {
                return Some(total);
            }
            self.pop_assignment();
            proof {
                assert(self.assignment@ =~= start);
            }

            self.assign_literal(literal.not());
            proof {
                lemma_count_bound(f.num_variables as int, is_assigned_at(self.assignment@));
            }
            if let Some(total) = self.search() {
                return Some(total);
            }
            self.pop_assignment();
            proof {
                let with_true = start.update(literal.var(), Some(true));
                let with_false = start.update(literal.var(), Some(false));
                assert forall|total: Seq<bool>| #[trigger] extends(total, start) implies !f.satisfied_by(
                    total,
                ) by {
                    if total[literal.var()] {
                        assert(extends(total, with_true));
                    } else {
                        assert(extends(total, with_false));
                    }
                }
            }
            None
        }
    }
}

impl Solver for DpllSolver {
    closed spec fn formula(&self) -> CnfView {
        self.formula@
    }

    closed spec fn ready(&self) -> bool {
        &&& self.wf()
        &&& forall|v: int| 0 <= v < self.assignment@.len() ==> (#[trigger] self.assignment@[v]).is_none()
    }

    fn new(formula: Cnf) -> (solver: DpllSolver) {
        let num_variables = formula.num_variables();
        let num_clauses = formula.clauses().len();
        let watch = Watch::new(&formula);

        let mut assignment: Vec<Option<bool>> = Vec::new();
        let mut variable: usize = 0;
        while variable < num_variables
            invariant
                variable <= num_variables,
                assignment@.len() == variable,
                forall|v: int| 0 <= v < variable ==> (#[trigger] assignment@[v]).is_none(),
            decreases num_variables - variable,
        {
            assignment.push(None);
            variable += 1;
        }

        // A clause without literals is falsified from the start.
        let mut clause_stats: Vec<ClauseStat> = Vec::new();
        let mut unsatisfied_clauses: usize = 0;
        let mut index: usize = 0;
        while index < num_clauses
            invariant
                index <= num_clauses,
                num_clauses == formula@.clauses.len(),
                formula@.wf(),
                assignment@.len() == formula@.num_variables,
                forall|v: int| 0 <= v < assignment@.len() ==> (#[trigger] assignment@[v]).is_none(),
                clause_stats@.len() == index,
                forall|c: int|
                    0 <= c < index ==> (#[trigger] clause_stats@[c]).satisfied == 0
                        && clause_stats@[c].unsatisfied == 0,
                forall|c: int| 0 <= c < index ==> (#[trigger] formula@.clauses[c]).len() <= usize::MAX,
                unsatisfied_clauses == count_upto(
                    index as int,
                    is_falsified_at(clause_stats@, formula@.clauses),
                ),
            decreases num_clauses - index,
        {
            let ghost stats = clause_stats@;
            let empty = formula.clauses()[index].num_literals() == 0;
            clause_stats.push(ClauseStat { satisfied: 0, unsatisfied: 0 });
            proof {
                lemma_count_bound(index as int, is_falsified_at(stats, formula@.clauses));
                lemma_count_ext(
                    index as int,
                    is_falsified_at(stats, formula@.clauses),
                    is_falsified_at(clause_stats@, formula@.clauses),
                );
            }
            if empty {
                unsatisfied_clauses += 1;
            }
            index += 1;
        }

        let solver = DpllSolver {
            formula,
            watch,
            assignment,
            clause_stats,
            satisfied_clauses: 0,
            unsatisfied_clauses,
            assigned_stack: Vec::new(),
        };
        proof {
            let f = solver.formula@;
            lemma_count_zero(f.clauses.len() as int, is_satisfied_at(solver.clause_stats@));
            lemma_count_zero(f.num_variables as int, is_assigned_at(solver.assignment@));
            assert forall|c: int| 0 <= c < f.clauses.len() implies true_count(
                #[trigger] f.clauses[c],
                solver.assignment@,
            ) == 0 && false_count(f.clauses[c], solver.assignment@) == 0 by {
                lemma_counts_unassigned(f.clauses[c], solver.assignment@);
            }
        }
        solver
    }

    fn solve(self) -> (model: Option<Model>) {
        let mut solver = self;
        match solver.search() {
            Some(assignment) => Some(Model::new(solver.formula, assignment)),
            None => {
                proof {
                    let f = self.formula@;
                    assert forall|total: Seq<bool>| !f.satisfied_by(total) by {
                        if f.satisfied_by(total) {
                            assert(extends(total, self.assignment@));
                        }
                    }
                }
                None
            },
        }
    }
}

/// Decides a formula with the DPLL engine: a model of it when there is one,
/// `None` when there is none.
pub fn solve(formula: Cnf) -> (model: Option<Model>)
    ensures
        model matches Some(m) ==> m.spec_formula() == formula@ && formula@.satisfied_by(
            m.spec_assignment(),
        ),
        model is None ==> !formula@.satisfiable(),
{
    let solver = DpllSolver::new(formula);
    solver.solve()
}

} // verus!
