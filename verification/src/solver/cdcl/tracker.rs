//! The clause tracker: for each clause, how many of its literals are true
//! and how many are false under the current assignment, the status that
//! follows, and for each status the set of the clauses that have it.
//!
//! Each literal has a watch row that names the clauses that hold it, so that
//! assigning a literal and taking the assignment back touch those clauses
//! only.

pub mod cache;
pub mod clause_stat;
pub mod links;
pub mod state;
pub mod store;

use crate::formula::{clause_in_range, Clause, Cnf, Literal, Variable};
use crate::count::lemma_count_ext;
use crate::solver::assignment::{
    false_count, is_literal_at, literal_count, true_count,
};
use crate::solver::cdcl::tracker::cache::{ClauseSet, ClauseStateCache};
use crate::solver::cdcl::tracker::clause_stat::{status_of, ClauseStat, ClauseStatus};
use crate::solver::cdcl::tracker::links::Links;
use crate::solver::cdcl::tracker::state::{
    is_live_literal_at, lemma_attach_ready, lemma_attach_step, lemma_closed,
    lemma_detach_ready, lemma_detach_step, lemma_empty, lemma_extended, lemma_live_count,
    lemma_live_literal, lemma_opened, lemma_pending_begin, lemma_pending_end,
    lemma_pending_full, lemma_unit_literal, Record, State,
};
use crate::solver::cdcl::tracker::store::{
    clauses_get, clauses_get_mut, clauses_len, clauses_new, clauses_push, live_get, live_len,
    live_literals, live_new, live_push, live_swap_remove, row_entries, row_get, row_get_mut,
    row_len, row_new, row_push, tracked_clauses, ClauseCol, ClauseIdx, TrackedClause,
    VariableCol, WatchElement, WatchedLiteral,
};
use typed_index_collections::TiVec;
use std::ops::Not;
use vstd::pervasive::unreached;
use vstd::prelude::*;

verus! {

/// The watch row of a literal.
pub type WatchRow = TiVec<VariableCol, WatchElement>;

/// The watch rows of all literals.
pub struct Watch {
    /// The row of the positive literal of each variable.
    positive: Vec<WatchRow>,
    /// The row of the negative literal of each variable.
    negative: Vec<WatchRow>,
}

impl Watch {
    /// The entries of the rows of the positive literals.
    pub closed spec fn positive_rows(&self) -> Seq<Seq<WatchElement>> {
        Seq::new(self.positive@.len(), |v: int| row_entries(self.positive@[v]))
    }

    /// The entries of the rows of the negative literals.
    pub closed spec fn negative_rows(&self) -> Seq<Seq<WatchElement>> {
        Seq::new(self.negative@.len(), |v: int| row_entries(self.negative@[v]))
    }

    /// The entries of the row of a literal.
    pub open spec fn entries(&self, literal: Literal) -> Seq<WatchElement> {
        if literal.positive {
            self.positive_rows()[literal.var()]
        } else {
            self.negative_rows()[literal.var()]
        }
    }

    /// Empty rows for the literals of `num_variables` variables.
    pub fn new(num_variables: usize) -> (watch: Watch)
        ensures
            watch.positive_rows() == Seq::new(
                num_variables as nat,
                |v: int| Seq::<WatchElement>::empty(),
            ),
            watch.negative_rows() == Seq::new(
                num_variables as nat,
                |v: int| Seq::<WatchElement>::empty(),
            ),
    {
        let mut positive: Vec<WatchRow> = Vec::new();
        let mut negative: Vec<WatchRow> = Vec::new();
        let mut variable: usize = 0;
        while variable < num_variables
            invariant
                variable <= num_variables,
                positive@.len() == variable,
                negative@.len() == variable,
                forall|v: int|
                    0 <= v < variable ==> row_entries(#[trigger] positive@[v])
                        == Seq::<WatchElement>::empty(),
                forall|v: int|
                    0 <= v < variable ==> row_entries(#[trigger] negative@[v])
                        == Seq::<WatchElement>::empty(),
            decreases num_variables - variable,
        {
            positive.push(row_new());
            negative.push(row_new());
            variable += 1;
        }
        let watch = Watch { positive, negative };
        watch
    }

    /// The row of a literal.
    pub fn index(&self, literal: Literal) -> (row: &WatchRow)
        requires
            literal.var() < self.positive_rows().len(),
            literal.var() < self.negative_rows().len(),
        ensures
            row_entries(*row) == self.entries(literal),
    {
        if literal.positive() {
            &self.positive[literal.index()]
        } else {
            &self.negative[literal.index()]
        }
    }

    /// The row of a literal, for writing: the rows of the other literals
    /// stay as they are.
    pub fn index_mut(&mut self, literal: Literal) -> (row: &mut WatchRow)
        requires
            literal.var() < old(self).positive_rows().len(),
            literal.var() < old(self).negative_rows().len(),
        ensures
            row_entries(*row) == old(self).entries(literal),
            literal.positive ==> final(self).positive_rows() == old(self).positive_rows().update(
                literal.var(),
                row_entries(*final(row)),
            ) && final(self).negative_rows() == old(self).negative_rows(),
            !literal.positive ==> final(self).negative_rows() == old(self).negative_rows().update(
                literal.var(),
                row_entries(*final(row)),
            ) && final(self).positive_rows() == old(self).positive_rows(),
    {
        if literal.positive() {
            &mut self.positive[literal.index()]
        } else {
            &mut self.negative[literal.index()]
        }
    }
}


/// The clause tracker.
pub struct Tracker {
    /// The number of variables.
    num_variables: usize,
    /// The value of each variable, `None` while it has none.
    assignments: Vec<Option<bool>>,
    /// The watch rows.
    watch: Watch,
    /// The clauses, those of the formula first and the added ones after.
    clauses: TiVec<ClauseIdx, TrackedClause>,
    /// The clauses sorted by status.
    clause_cache: ClauseStateCache,
}

impl Tracker {
    /// What the tracker holds.
    pub closed spec fn state(&self) -> State {
        State {
            num_variables: self.num_variables as int,
            links: Links {
                positive: self.watch.positive_rows(),
                negative: self.watch.negative_rows(),
                live: Seq::new(
                    tracked_clauses(self.clauses).len(),
                    |c: int| live_literals(tracked_clauses(self.clauses)[c].literals),
                ),
            },
            records: Seq::new(
                tracked_clauses(self.clauses).len(),
                |c: int|
                    Record {
                        original: tracked_clauses(self.clauses)[c].original@,
                        stat: tracked_clauses(self.clauses)[c].stat,
                    },
            ),
            falsified: self.clause_cache.bucket(ClauseStatus::Falsified),
            satisfied: self.clause_cache.bucket(ClauseStatus::Satisfied),
            unit: self.clause_cache.bucket(ClauseStatus::Unit),
            unresolved: self.clause_cache.bucket(ClauseStatus::Unresolved),
        }
    }

    /// The value of each variable.
    pub closed spec fn assignment(&self) -> Seq<Option<bool>> {
        self.assignments@
    }

    /// The clauses as they were added, in the order in which they were
    /// added.
    pub open spec fn originals(&self) -> Seq<Seq<Literal>> {
        Seq::new(self.state().records.len(), |c: int| self.state().records[c].original)
    }

    /// The tracker follows its assignment: the counts, the statuses, the
    /// sets and the watch rows are those of the clauses under it.
    pub open spec fn wf(&self) -> bool {
        self.state().wf(self.assignment())
    }

    /// The tracker without clauses over `num_variables` variables, none of
    /// which has a value.
    pub fn new(num_variables: usize) -> (tracker: Tracker)
        requires
            num_variables <= Variable::MAX_VARIABLE_INDEX + 1,
        ensures
            tracker.wf(),
            tracker.state().num_variables == num_variables,
            tracker.state().records.len() == 0,
            tracker.assignment().len() == num_variables,
            forall|v: int| 0 <= v < num_variables ==> (#[trigger] tracker.assignment()[v]).is_none(),
    {
        let mut assignments: Vec<Option<bool>> = Vec::new();
        let mut variable: usize = 0;
        while variable < num_variables
            invariant
                variable <= num_variables,
                assignments@.len() == variable,
                forall|v: int| 0 <= v < variable ==> (#[trigger] assignments@[v]).is_none(),
            decreases num_variables - variable,
        {
            assignments.push(None);
            variable += 1;
        }
        let tracker = Tracker {
            num_variables,
            assignments,
            watch: Watch::new(num_variables),
            clauses: clauses_new(),
            clause_cache: ClauseStateCache::new(),
        };
        proof {
            lemma_empty(num_variables as int, tracker.assignments@);
        }
        tracker
    }

    /// The tracker of a formula, with no variable assigned.
    pub fn from_cnf(formula: &Cnf) -> (tracker: Tracker)
        ensures
            tracker.wf(),
            tracker.state().num_variables == formula@.num_variables,
            tracker.originals() == formula@.clauses,
            tracker.assignment().len() == formula@.num_variables,
            forall|v: int|
                0 <= v < formula@.num_variables ==> (#[trigger] tracker.assignment()[v]).is_none(),
    {
        let mut tracker = Tracker::new(formula.num_variables());
        let clauses = formula.clauses();
        let mut index: usize = 0;
        while index < clauses.len()
            invariant
                index <= clauses@.len(),
                formula@.wf(),
                clauses@.len() == formula@.clauses.len(),
                forall|c: int|
                    0 <= c < clauses@.len() ==> (#[trigger] clauses@[c])@ == formula@.clauses[c],
                tracker.wf(),
                tracker.state().num_variables == formula@.num_variables,
                tracker.originals() == formula@.clauses.take(index as int),
                tracker.assignment().len() == formula@.num_variables,
                forall|v: int|
                    0 <= v < formula@.num_variables ==> (#[trigger] tracker.assignment()[v]).is_none(),
            decreases clauses@.len() - index,
        {
            tracker.add_clause(clauses[index].clone());
            index += 1;
        }
        tracker
    }

    /// The state while a clause is being added: the clauses of the tracker
    /// and after them the new clause as far as it has been read, with the
    /// counts and the live literals gathered so far.
    closed spec fn adding(
        &self,
        read: Seq<Literal>,
        satisfied: usize,
        unsatisfied: usize,
        literals: TiVec<ClauseCol, WatchedLiteral>,
    ) -> State {
        let state = self.state();
        State {
            links: Links { live: state.links.live.push(live_literals(literals)), ..state.links },
            records: state.records.push(
                Record {
                    original: read,
                    stat: ClauseStat {
                        total: read.len() as usize,
                        satisfied,
                        unsatisfied,
                        status: status_of(read.len() as int, satisfied as int, unsatisfied as int),
                    },
                },
            ),
            ..state
        }
    }

    /// Adds a clause, which is counted under the current assignment.
    pub fn add_clause(&mut self, clause: Clause)
        requires
            old(self).wf(),
            clause_in_range(clause@, old(self).state().num_variables),
        ensures
            final(self).wf(),
            final(self).state().num_variables == old(self).state().num_variables,
            final(self).assignment() == old(self).assignment(),
            final(self).originals() == old(self).originals().push(clause@),
    {
        let ghost base = self.assignments@;
        let ghost start = self.state();
        let ghost m = start.records.len() as int;
        let mut satisfied: usize = 0;
        let mut unsatisfied: usize = 0;
        let mut literals = live_new();
        let count = clauses_len(&self.clauses);
        let clause_index = ClauseIdx::from(count);
        proof {
            lemma_opened(start, base);
            assert(clause@.take(0) =~= Seq::<Literal>::empty());
        }
        let mut position: usize = 0;
        while position < clause.num_literals()
            invariant
                position <= clause@.len(),
                clause_index.0 == m,
                m == tracked_clauses(self.clauses).len(),
                m == self.state().records.len(),
                self.assignments@ == base,
                self.num_variables == old(self).num_variables,
                clause_in_range(clause@, self.num_variables as int),
                self.state().records == start.records,
                self.state().links.live == start.links.live,
                self.adding(clause@.take(position as int), satisfied, unsatisfied, literals).sound(
                    base,
                    None,
                    0,
                    0,
                    0,
                    0,
                ),
                self.adding(clause@.take(position as int), satisfied, unsatisfied, literals).filed(m),
            decreases clause@.len() - position,
        {
            let literal = clause.literal(position);
            let ghost read = clause@.take(position as int);
            let ghost before = self.adding(read, satisfied, unsatisfied, literals);
            proof {
                assert(before.record_ok(m, base, None, 0, 0, 0, 0));
                assert(clause@.take(position + 1) =~= read.push(literal));
            }
            match literal.partial_value(self.assignments.as_slice()) {
                Some(true) => {
                    satisfied += 1;
                    row_push(self.watch.index_mut(literal), WatchElement::new(clause_index, None));
                },
                Some(false) => {
                    unsatisfied += 1;
                    row_push(self.watch.index_mut(literal), WatchElement::new(clause_index, None));
                },
                None => {
                    let live_length = live_len(&literals);
                    let new_clause_col = ClauseCol::from(live_length);
                    let variable_col = row_push(
                        self.watch.index_mut(literal),
                        WatchElement::new(clause_index, Some(new_clause_col)),
                    );
                    live_push(&mut literals, WatchedLiteral { literal, variable_col });
                },
            }
            proof {
                lemma_extended(before, base, literal);
                let after = self.adding(read.push(literal), satisfied, unsatisfied, literals);
                let expected = before.extended(literal, literal.value_under(base));
                assert(after.links.live =~= expected.links.live);
                assert(after.records =~= expected.records);
            }
            position += 1;
        }
        proof {
            assert(clause@.take(position as int) =~= clause@);
        }
        let ghost last = self.adding(clause@, satisfied, unsatisfied, literals);
        proof {
            assert(last.record_ok(m, base, None, 0, 0, 0, 0));
        }
        let stat = ClauseStat::new(clause.num_literals(), satisfied, unsatisfied);
        self.clause_cache.insert(stat.status(), clause_index);
        clauses_push(&mut self.clauses, TrackedClause { original: clause, stat, literals });
        proof {
            lemma_closed(last, base);
            let expected = last.filed_under(stat.status, m as usize);
            assert(self.state().links.live =~= expected.links.live);
            assert(self.state().records =~= expected.records);
        }
    }

    /// Points the entry of the live literal at a position of a clause at
    /// that position, where the clause has a live literal there.
    fn fixup_clause(&mut self, idx: ClauseIdx, col: ClauseCol)
        requires
            idx.0 < old(self).state().records.len(),
            old(self).state().links.positive.len() == old(self).state().links.negative.len(),
            col.0 < old(self).state().links.live[idx.0 as int].len() ==> ({
                let watched = old(self).state().links.live[idx.0 as int][col.0 as int];
                &&& watched.literal.var() < old(self).state().links.positive.len()
                &&& watched.variable_col.0 < old(self).state().links.row(watched.literal).len()
            }),
        ensures
            final(self).assignments@ == old(self).assignments@,
            final(self).num_variables == old(self).num_variables,
            col.0 >= old(self).state().links.live[idx.0 as int].len() ==> final(self).state() == old(
                self,
            ).state(),
            col.0 < old(self).state().links.live[idx.0 as int].len() ==> ({
                let watched = old(self).state().links.live[idx.0 as int][col.0 as int];
                let entry = old(self).state().links.row(watched.literal)[watched.variable_col.0 as int];
                final(self).state() == State {
                    links: old(self).state().links.with_entry(
                        watched.literal,
                        watched.variable_col.0 as int,
                        WatchElement { clause_idx: entry.clause_idx, clause_col: Some(col) },
                    ),
                    ..old(self).state()
                }
            }),
    {
        let clause = clauses_get(&self.clauses, idx);
        if let Some(watched) = live_get(&clause.literals, col) {
            let entry = row_get_mut(self.watch.index_mut(watched.literal), watched.variable_col);
            entry.clause_col = Some(col);
            proof {
                let expected = old(self).state().links.with_entry(
                    watched.literal,
                    watched.variable_col.0 as int,
                    WatchElement {
                        clause_idx: old(self).state().links.row(
                            watched.literal,
                        )[watched.variable_col.0 as int].clause_idx,
                        clause_col: Some(col),
                    },
                );
            }
        }
    }

    /// Walks one entry of a row while assigning: the entry's clause counts
    /// one more literal as true or as false and is refiled, and the entry
    /// lets go of its live literal.
    fn detach(&mut self, literal: Literal, col: VariableCol, makes_true: bool)
        requires
            literal.var() < old(self).state().links.positive.len(),
            old(self).state().links.positive.len() == old(self).state().links.negative.len(),
            old(self).state().links.positive.len() == old(self).state().num_variables,
            col.0 < old(self).state().links.row(literal).len(),
            ({
                let state = old(self).state();
                let element = state.links.row(literal)[col.0 as int];
                let c = element.clause_idx.0 as int;
                &&& c < state.records.len()
                &&& element.clause_col.is_some()
                &&& element.clause_col.unwrap().0 < state.links.live[c].len()
                &&& state.records[c].stat.wf()
                &&& state.records[c].stat.satisfied + state.records[c].stat.unsatisfied
                    < state.records[c].stat.total
                &&& state.bucket(state.records[c].stat.status).contains(element.clause_idx.0)
                &&& forall|status: ClauseStatus|
                    status != state.records[c].stat.status ==> !(#[trigger] state.bucket(
                        status,
                    )).contains(element.clause_idx.0)
                &&& ({
                    let moved = state.links.live[c].last();
                    &&& moved.literal.var() < state.num_variables
                    &&& moved.variable_col.0 < state.links.row(moved.literal).len()
                    &&& state.links.row(moved.literal)[moved.variable_col.0 as int].clause_idx
                        == element.clause_idx
                })
            }),
        ensures
            final(self).assignments@ == old(self).assignments@,
            final(self).num_variables == old(self).num_variables,
            final(self).state() == old(self).state().detach_step(literal, col.0 as int, makes_true),
    {
        let ghost start = self.state();
        let element = row_get(self.watch.index(literal), col);
        let idx = element.clause_idx;
        let ghost c = idx.0 as int;
        proof {
            assert forall|status: ClauseStatus| #[trigger]
                self.clause_cache.bucket(status) == start.bucket(status) by {}
        }

        let clause = clauses_get_mut(&mut self.clauses, idx);
        let change = if makes_true {
            clause.stat.increment_satisfied()
        } else {
            clause.stat.increment_unsatisfied()
        };
        self.clause_cache.handle_change(change, idx);

        let entry = row_get_mut(self.watch.index_mut(literal), col);
        let clause_col = match entry.clause_col {
            Some(clause_col) => clause_col,
            None => unreached(),
        };
        entry.clause_col = None;
        live_swap_remove(&mut clause.literals, clause_col);

        let ghost cut = self.state();
        proof {
            let expected = State {
                links: start.links.with_entry(
                    literal,
                    col.0 as int,
                    WatchElement { clause_idx: idx, clause_col: None },
                ).with_live(
                    c,
                    crate::solver::cdcl::tracker::store::swap_removed(
                        start.links.live[c],
                        clause_col.0 as int,
                    ),
                ),
                records: start.detach_step(literal, col.0 as int, makes_true).records,
                ..start.detach_step(literal, col.0 as int, makes_true)
            };
            assert(cut.links.live =~= expected.links.live);
            assert(cut.records =~= expected.records);
        }
        self.fixup_clause(idx, clause_col);
    }

    /// Walks one entry of a row while taking an assignment back: the entry's
    /// clause counts one literal fewer as true or as false and is refiled,
    /// and the entry takes a live literal again.
    fn attach(&mut self, literal: Literal, col: VariableCol, was_true: bool)
        requires
            literal.var() < old(self).state().links.positive.len(),
            old(self).state().links.positive.len() == old(self).state().links.negative.len(),
            col.0 < old(self).state().links.row(literal).len(),
            ({
                let state = old(self).state();
                let element = state.links.row(literal)[col.0 as int];
                let c = element.clause_idx.0 as int;
                &&& c < state.records.len()
                &&& state.records[c].stat.wf()
                &&& was_true ==> state.records[c].stat.satisfied > 0
                &&& !was_true ==> state.records[c].stat.unsatisfied > 0
                &&& state.bucket(state.records[c].stat.status).contains(element.clause_idx.0)
                &&& forall|status: ClauseStatus|
                    status != state.records[c].stat.status ==> !(#[trigger] state.bucket(
                        status,
                    )).contains(element.clause_idx.0)
            }),
        ensures
            final(self).assignments@ == old(self).assignments@,
            final(self).num_variables == old(self).num_variables,
            final(self).state() == old(self).state().attach_step(literal, col.0 as int, was_true),
    {
        let ghost start = self.state();
        let element = row_get(self.watch.index(literal), col);
        let idx = element.clause_idx;
        proof {
            assert forall|status: ClauseStatus| #[trigger]
                self.clause_cache.bucket(status) == start.bucket(status) by {}
        }

        let clause = clauses_get_mut(&mut self.clauses, idx);
        let change = if was_true {
            clause.stat.decrement_satisfied()
        } else {
            clause.stat.decrement_unsatisfied()
        };
        self.clause_cache.handle_change(change, idx);

        let clause_col = live_push(
            &mut clause.literals,
            WatchedLiteral { literal, variable_col: col },
        );
        let entry = row_get_mut(self.watch.index_mut(literal), col);
        entry.clause_col = Some(clause_col);
        proof {
            let expected = start.attach_step(literal, col.0 as int, was_true);
            assert(self.state().links.live =~= expected.links.live);
            assert(self.state().records =~= expected.records);
        }
    }

    /// Gives the literal's variable the value that makes the literal true.
    pub fn set_literal(&mut self, literal: Literal)
        requires
            old(self).wf(),
            literal.var() < old(self).state().num_variables,
            old(self).assignment()[literal.var()].is_none(),
        ensures
            final(self).wf(),
            final(self).state().num_variables == old(self).state().num_variables,
            final(self).assignment() == old(self).assignment().update(
                literal.var(),
                Some(literal.positive),
            ),
            final(self).originals() == old(self).originals(),
    {
        let ghost base = self.assignments@;
        let ghost after = base.update(literal.var(), Some(literal.positive));
        let ghost originals = self.originals();
        proof {
            lemma_pending_begin(self.state(), base, literal, 0, 0);
        }
        self.assignments[literal.index()] = Some(literal.positive());

        let len = row_len(self.watch.index(literal));
        let mut t: usize = 0;
        while t < len
            invariant
                t <= len,
                len == self.state().links.row(literal).len(),
                self.assignments@ == after,
                self.num_variables == old(self).num_variables,
                self.originals() == originals,
                self.state().tracks(base, Some(literal), 0, t as int, 0, 0),
            decreases len - t,
        {
            let ghost before = self.state();
            proof {
                lemma_detach_ready(before, base, literal, 0, t as int, 0, 0, true);
                lemma_detach_step(before, base, literal, 0, t as int, 0, 0, true);
            }
            self.detach(literal, VariableCol::from(t), true);
            t += 1;
        }

        let negated = literal.not();
        let other_len = row_len(self.watch.index(negated));
        let mut t: usize = 0;
        while t < other_len
            invariant
                t <= other_len,
                negated == literal.negation(),
                len == self.state().links.row(literal).len(),
                other_len == self.state().links.row(negated).len(),
                self.assignments@ == after,
                self.num_variables == old(self).num_variables,
                self.originals() == originals,
                self.state().tracks(base, Some(literal), 0, len as int, 0, t as int),
            decreases other_len - t,
        {
            let ghost before = self.state();
            proof {
                lemma_detach_ready(before, base, literal, 0, len as int, 0, t as int, false);
                lemma_detach_step(before, base, literal, 0, len as int, 0, t as int, false);
            }
            self.detach(negated, VariableCol::from(t), false);
            t += 1;
        }
        proof {
            let state = self.state();
            assert forall|c: int| 0 <= c < state.records.len() implies clause_in_range(
                (#[trigger] state.records[c]).original,
                state.num_variables,
            ) by {
                assert(state.record_ok(c, base, Some(literal), 0, len as int, 0, other_len as int));
            }
            lemma_pending_full(state, base, literal);
        }
    }

    /// Takes the value of a variable back.
    pub fn unset(&mut self, variable: Variable)
        requires
            old(self).wf(),
            variable.0 < old(self).state().num_variables,
            old(self).assignment()[variable.0 as int].is_some(),
        ensures
            final(self).wf(),
            final(self).state().num_variables == old(self).state().num_variables,
            final(self).assignment() == old(self).assignment().update(variable.0 as int, None),
            final(self).originals() == old(self).originals(),
    {
        let ghost assigned = self.assignments@;
        let ghost base = assigned.update(variable.0 as int, None);
        let ghost originals = self.originals();
        let old_value = match self.assignments[variable.index()] {
            Some(value) => value,
            None => unreached(),
        };
        self.assignments[variable.index()] = None;
        let literal = Literal::new(variable, old_value);
        let negated = literal.not();

        let len = row_len(self.watch.index(literal));
        let other_len = row_len(self.watch.index(negated));
        proof {
            let state = self.state();
            assert(assigned =~= base.update(literal.var(), Some(literal.positive)));
            assert forall|c: int| 0 <= c < state.records.len() implies clause_in_range(
                (#[trigger] state.records[c]).original,
                state.num_variables,
            ) by {
                assert(state.record_ok(c, assigned, None, 0, 0, 0, 0));
            }
            lemma_pending_full(state, base, literal);
        }
        let mut t: usize = 0;
        while t < len
            invariant
                t <= len,
                negated == literal.negation(),
                len == self.state().links.row(literal).len(),
                other_len == self.state().links.row(negated).len(),
                self.assignments@ == base,
                self.num_variables == old(self).num_variables,
                self.originals() == originals,
                self.state().tracks(base, Some(literal), t as int, len as int, 0, other_len as int),
            decreases len - t,
        {
            let ghost before = self.state();
            proof {
                lemma_attach_ready(
                    before,
                    base,
                    literal,
                    t as int,
                    len as int,
                    0,
                    other_len as int,
                    true,
                );
                lemma_attach_step(
                    before,
                    base,
                    literal,
                    t as int,
                    len as int,
                    0,
                    other_len as int,
                    true,
                );
            }
            self.attach(literal, VariableCol::from(t), true);
            t += 1;
        }

        let mut t: usize = 0;
        while t < other_len
            invariant
                t <= other_len,
                negated == literal.negation(),
                len == self.state().links.row(literal).len(),
                other_len == self.state().links.row(negated).len(),
                self.assignments@ == base,
                self.num_variables == old(self).num_variables,
                self.originals() == originals,
                self.state().tracks(
                    base,
                    Some(literal),
                    len as int,
                    len as int,
                    t as int,
                    other_len as int,
                ),
            decreases other_len - t,
        {
            let ghost before = self.state();
            proof {
                lemma_attach_ready(
                    before,
                    base,
                    literal,
                    len as int,
                    len as int,
                    t as int,
                    other_len as int,
                    false,
                );
                lemma_attach_step(
                    before,
                    base,
                    literal,
                    len as int,
                    len as int,
                    t as int,
                    other_len as int,
                    false,
                );
            }
            self.attach(negated, VariableCol::from(t), false);
            t += 1;
        }
        proof {
            lemma_pending_end(self.state(), base, literal, len as int, other_len as int);
        }
    }
}


/// A set of numbers below a bound is finite and has no more elements than
/// the bound tells, and as many exactly when it holds every number below
/// the bound.
pub proof fn lemma_bounded_set(set: Set<usize>, bound: nat)
    requires
        bound <= usize::MAX,
        forall|idx: usize| set.contains(idx) ==> idx < bound,
    ensures
        set.finite(),
        set.len() <= bound,
        set.len() == bound <==> (forall|idx: usize| idx < bound ==> set.contains(idx)),
    decreases bound,
{
    if bound == 0 {
        assert(set =~= Set::<usize>::empty());
    } else {
        let top = (bound - 1) as usize;
        let rest = set.remove(top);
        lemma_bounded_set(rest, (bound - 1) as nat);
        if !(set.contains(top)) {
            assert(set =~= rest);
        }
    }
}

/// Whether the literal stands in the clause at a position such that every
/// literal at another position is false.
pub open spec fn is_forced_by(
    literal: Literal,
    clause: Seq<Literal>,
    assignment: Seq<Option<bool>>,
) -> bool {
    exists|position: int|
        {
            &&& 0 <= position < clause.len()
            &&& #[trigger] clause[position] == literal
            &&& forall|i: int|
                0 <= i < clause.len() && i != position ==> (#[trigger] clause[i]).value_under(
                    assignment,
                ) == Some(false)
        }
}

impl Tracker {
    /// The value of each variable.
    pub fn assignments(&self) -> (assignments: &[Option<bool>])
        ensures
            assignments@ == self.assignment(),
    {
        self.assignments.as_slice()
    }

    /// The clauses whose literals are all false.
    pub fn falsified_clauses(&self) -> (set: &ClauseSet)
        ensures
            set@ == self.state().falsified,
            set.len() == set@.len(),
    {
        self.clause_cache.get(ClauseStatus::Falsified)
    }

    /// The clauses with a true literal.
    pub fn satisfied_clauses(&self) -> (set: &ClauseSet)
        ensures
            set@ == self.state().satisfied,
            set.len() == set@.len(),
    {
        self.clause_cache.get(ClauseStatus::Satisfied)
    }

    /// The clauses with no true literal and all but one literal false.
    pub fn unit_clauses(&self) -> (set: &ClauseSet)
        ensures
            set@ == self.state().unit,
            set.len() == set@.len(),
    {
        self.clause_cache.get(ClauseStatus::Unit)
    }

    /// The number of clauses.
    pub fn num_clauses(&self) -> (n: usize)
        ensures
            n == self.state().records.len(),
    {
        clauses_len(&self.clauses)
    }

    /// The number of variables.
    pub fn num_variables(&self) -> (n: usize)
        ensures
            n == self.state().num_variables,
    {
        self.num_variables
    }

    /// The number of literals of the variable in the clauses, of both
    /// polarities together, or `usize::MAX` where that number is larger.
    pub fn variable_occurrence(&self, variable: Variable) -> (n: usize)
        requires
            self.wf(),
            variable.0 < self.state().num_variables,
        ensures
            ({
                let positive = self.state().links.row(Literal { variable, positive: true }).len();
                let negative = self.state().links.row(Literal { variable, positive: false }).len();
                n == if positive + negative <= usize::MAX {
                    positive + negative
                } else {
                    usize::MAX as nat
                }
            }),
    {
        let positive = row_len(self.watch.index(Literal::new(variable, true)));
        let negative = row_len(self.watch.index(Literal::new(variable, false)));
        if positive <= usize::MAX - negative {
            positive + negative
        } else {
            usize::MAX
        }
    }

    /// The status of a clause.
    pub fn clause_status(&self, index: ClauseIdx) -> (status: ClauseStatus)
        requires
            index.0 < self.state().records.len(),
        ensures
            status == self.state().records[index.0 as int].stat.status,
    {
        clauses_get(&self.clauses, index).stat.status()
    }

    /// A clause as it was added.
    pub fn original_clause(&self, index: ClauseIdx) -> (clause: &Clause)
        requires
            index.0 < self.state().records.len(),
        ensures
            clause@ == self.state().records[index.0 as int].original,
    {
        &clauses_get(&self.clauses, index).original
    }

    /// The literals of a clause whose variables have no value, in the order
    /// in which the tracker keeps them: each of them stands among them as
    /// often as it stands in the clause.
    pub fn literals(&self, index: ClauseIdx) -> (literals: Vec<Literal>)
        requires
            self.wf(),
            index.0 < self.state().records.len(),
        ensures
            literals@.len() == self.state().links.live[index.0 as int].len(),
            forall|k: int|
                0 <= k < literals@.len() ==> #[trigger] literals@[k]
                    == self.state().links.live[index.0 as int][k].literal,
            forall|k: int|
                0 <= k < literals@.len() ==> (#[trigger] literals@[k]).var()
                    < self.assignment().len() && self.assignment()[literals@[k].var()].is_none()
                    && self.state().records[index.0 as int].original.contains(literals@[k]),
            literals@.len() + true_count(
                self.state().records[index.0 as int].original,
                self.assignment(),
            ) + false_count(self.state().records[index.0 as int].original, self.assignment())
                == self.state().records[index.0 as int].original.len(),
            forall|literal: Literal|
                literal.var() < self.assignment().len() ==> #[trigger] literal_count(
                    literals@,
                    literal,
                ) == if self.assignment()[literal.var()].is_none() {
                    literal_count(self.state().records[index.0 as int].original, literal)
                } else {
                    0
                },
    {
        let clause = clauses_get(&self.clauses, index);
        let len = live_len(&clause.literals);
        let mut literals: Vec<Literal> = Vec::new();
        let mut k: usize = 0;
        while k < len
            invariant
                k <= len,
                len == live_literals(clause.literals).len(),
                literals@.len() == k,
                forall|j: int|
                    0 <= j < k ==> #[trigger] literals@[j] == live_literals(
                        clause.literals,
                    )[j].literal,
            decreases len - k,
        {
            match live_get(&clause.literals, ClauseCol::from(k)) {
                Some(watched) => {
                    literals.push(watched.literal);
                },
                None => {},
            }
            k += 1;
        }
        proof {
            let state = self.state();
            let c = index.0 as int;
            assert forall|literal: Literal|
                literal.var() < self.assignment().len() implies #[trigger] literal_count(
                literals@,
                literal,
            ) == if self.assignment()[literal.var()].is_none() {
                literal_count(state.records[c].original, literal)
            } else {
                0
            } by {
                lemma_live_count(state, self.assignment(), c, literal);
                lemma_count_ext(
                    literals@.len() as int,
                    is_literal_at(literals@, literal),
                    is_live_literal_at(state.links.live[c], literal),
                );
            }
            assert(state.record_ok(c, self.assignment(), None, 0, 0, 0, 0));
            assert forall|k: int| 0 <= k < literals@.len() implies (#[trigger] literals@[k]).var()
                < self.assignment().len() && self.assignment()[literals@[k].var()].is_none()
                && state.records[c].original.contains(literals@[k]) by {
                lemma_live_literal(state, self.assignment(), c, k);
            }
        }
        literals
    }

    /// The literal that a unit clause forces: the one literal of the clause
    /// whose variable has no value.
    pub fn get_unit_clause_literal(&self, index: ClauseIdx) -> (literal: Literal)
        requires
            self.wf(),
            index.0 < self.state().records.len(),
            self.state().records[index.0 as int].stat.status == ClauseStatus::Unit,
        ensures
            literal.var() < self.state().num_variables,
            self.assignment()[literal.var()].is_none(),
            is_forced_by(literal, self.state().records[index.0 as int].original, self.assignment()),
    {
        proof {
            lemma_unit_literal(self.state(), self.assignments@, index.0 as int);
        }
        let clause = clauses_get(&self.clauses, index);
        match live_get(&clause.literals, ClauseCol::from(0)) {
            Some(watched) => watched.literal,
            None => unreached(),
        }
    }

    /// The counts of every clause are the numbers of its literals that are
    /// true and that are false under the assignment, and its status is the
    /// one that those numbers give.
    pub proof fn lemma_counts_exact(&self, c: int)
        requires
            self.wf(),
            0 <= c < self.state().records.len(),
        ensures
            ({
                let record = self.state().records[c];
                &&& record.stat.total == record.original.len()
                &&& record.stat.satisfied == true_count(record.original, self.assignment())
                &&& record.stat.unsatisfied == false_count(record.original, self.assignment())
                &&& record.stat.status == status_of(
                    record.original.len() as int,
                    true_count(record.original, self.assignment()) as int,
                    false_count(record.original, self.assignment()) as int,
                )
                &&& clause_in_range(record.original, self.state().num_variables)
            }),
    {
        assert(self.state().record_ok(c, self.assignment(), None, 0, 0, 0, 0));
    }

    /// Every clause is in the set of its status and in no other set, and the
    /// sets hold nothing but clauses.
    pub proof fn lemma_filed_once(&self, status: ClauseStatus, idx: usize)
        requires
            self.wf(),
        ensures
            self.state().bucket(status).contains(idx) <==> (idx < self.state().records.len()
                && self.state().records[idx as int].stat.status == status),
    {
    }

    /// Two trackers that follow the same assignment of the same clauses have
    /// the same counts and statuses and the same sets.
    pub proof fn lemma_determined(&self, other: &Tracker)
        requires
            self.wf(),
            other.wf(),
            self.assignment() == other.assignment(),
            self.originals() == other.originals(),
        ensures
            self.state().records == other.state().records,
            forall|status: ClauseStatus| #[trigger]
                self.state().bucket(status) == other.state().bucket(status),
    {
        let a = self.state();
        let b = other.state();
        assert(a.records.len() == self.originals().len());
        assert forall|c: int| 0 <= c < a.records.len() implies a.records[c] == b.records[c] by {
            assert(a.record_ok(c, self.assignment(), None, 0, 0, 0, 0));
            assert(b.record_ok(c, self.assignment(), None, 0, 0, 0, 0));
            assert(a.records[c].original == self.originals()[c]);
        }
        assert forall|status: ClauseStatus| #[trigger] a.bucket(status) == b.bucket(status) by {
            assert forall|idx: usize|
                a.bucket(status).contains(idx) == b.bucket(status).contains(idx) by {
                self.lemma_filed_once(status, idx);
                other.lemma_filed_once(status, idx);
            }
        }
    }

    /// Assigning a literal and then taking the value of its variable back
    /// leaves the counts and the status of every clause and the contents of
    /// every set as they were.
    ///
    /// `between` is what `set_literal` makes of `before`, and `after` is what
    /// `unset` makes of `between`.
    pub proof fn lemma_set_unset_round_trip(
        before: &Tracker,
        between: &Tracker,
        after: &Tracker,
        literal: Literal,
    )
        requires
            before.wf(),
            literal.var() < before.state().num_variables,
            before.assignment()[literal.var()].is_none(),
            between.assignment() == before.assignment().update(
                literal.var(),
                Some(literal.positive),
            ),
            between.originals() == before.originals(),
            after.wf(),
            after.assignment() == between.assignment().update(literal.var(), None),
            after.originals() == between.originals(),
        ensures
            after.state().records == before.state().records,
            forall|status: ClauseStatus| #[trigger]
                after.state().bucket(status) == before.state().bucket(status),
    {
        assert(after.assignment() =~= before.assignment());
        after.lemma_determined(before);
    }
}

} // verus!
