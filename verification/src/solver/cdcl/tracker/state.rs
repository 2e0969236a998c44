//! What a tracker holds, as a mathematical value, and what it means for
//! that value to follow an assignment.
//!
//! Assigning a literal and taking an assignment back walk over two watch
//! rows entry by entry. Between the entries the tracker follows the
//! assignment without the literal, plus the entries walked so far: the
//! window of entries of each of the two rows that are already counted.

use crate::count::{
    count_upto, lemma_count_ext, lemma_count_flip, lemma_count_matched, lemma_count_witness,
    lemma_count_zero,
};
use crate::formula::{clause_in_range, Literal, Variable};
use crate::solver::assignment::{
    false_count, lemma_counts_after_assign, lemma_counts_push,
    lemma_occurrences_push, lemma_unit_others_false, is_literal_at, literal_count,
    names_clause_at, occurrences, true_count,
};
use crate::solver::cdcl::tracker::clause_stat::{status_of, ClauseStat, ClauseStatus};
use crate::solver::cdcl::tracker::links::{
    lemma_attached, lemma_detached, lemma_linked_ext, lemma_pushed_idle, lemma_pushed_live,
    lemma_with_pushed, live_except, Links,
};
use crate::solver::cdcl::tracker::store::{
    ClauseCol, ClauseIdx, VariableCol, WatchElement, WatchedLiteral,
};
use vstd::prelude::*;

verus! {

/// What a tracker keeps of a clause, without its live literals.
pub struct Record {
    /// The clause as it was added.
    pub original: Seq<Literal>,
    /// Its counts and status.
    pub stat: ClauseStat,
}

/// What a tracker holds.
pub struct State {
    pub num_variables: int,
    pub links: Links,
    pub records: Seq<Record>,
    pub falsified: Set<usize>,
    pub satisfied: Set<usize>,
    pub unit: Set<usize>,
    pub unresolved: Set<usize>,
}

/// Holds at the entries of a row inside a window that name the clause.
pub open spec fn in_window_for(named: Seq<usize>, c: int, lo: int, hi: int) -> spec_fn(int) -> bool {
    |t: int| lo <= t < hi && named[t] == c
}

/// Tells which entries name a live position while the literal `pending` is
/// being assigned or taken back: those of a literal without a value, but
/// for the entries of `pending` inside the first window and those of its
/// negation inside the second.
pub open spec fn live_in(
    base: Seq<Option<bool>>,
    pending: Option<Literal>,
    lo1: int,
    hi1: int,
    lo2: int,
    hi2: int,
) -> spec_fn(Literal, int) -> bool {
    |literal: Literal, t: int|
        if pending == Some(literal) && lo1 <= t < hi1 {
            false
        } else if pending == Some(literal.negation()) && lo2 <= t < hi2 {
            false
        } else {
            base[literal.var()].is_none()
        }
}

impl State {
    /// The clauses filed under a status.
    pub open spec fn bucket(self, status: ClauseStatus) -> Set<usize> {
        match status {
            ClauseStatus::Falsified => self.falsified,
            ClauseStatus::Satisfied => self.satisfied,
            ClauseStatus::Unit => self.unit,
            ClauseStatus::Unresolved => self.unresolved,
        }
    }

    /// The state with a clause filed under a status.
    pub open spec fn filed_under(self, status: ClauseStatus, idx: usize) -> State {
        match status {
            ClauseStatus::Falsified => State { falsified: self.falsified.insert(idx), ..self },
            ClauseStatus::Satisfied => State { satisfied: self.satisfied.insert(idx), ..self },
            ClauseStatus::Unit => State { unit: self.unit.insert(idx), ..self },
            ClauseStatus::Unresolved => State { unresolved: self.unresolved.insert(idx), ..self },
        }
    }

    /// The state with a clause taken out of the set of a status.
    pub open spec fn taken_from(self, status: ClauseStatus, idx: usize) -> State {
        match status {
            ClauseStatus::Falsified => State { falsified: self.falsified.remove(idx), ..self },
            ClauseStatus::Satisfied => State { satisfied: self.satisfied.remove(idx), ..self },
            ClauseStatus::Unit => State { unit: self.unit.remove(idx), ..self },
            ClauseStatus::Unresolved => State { unresolved: self.unresolved.remove(idx), ..self },
        }
    }

    /// The state with a clause moved from the set of one status to that of
    /// another.
    pub open spec fn refiled(self, from: ClauseStatus, to: ClauseStatus, idx: usize) -> State {
        if from == to {
            self
        } else {
            self.taken_from(from, idx).filed_under(to, idx)
        }
    }

    /// The number of entries of a literal's row inside a window that name
    /// the clause; none where there is no literal.
    pub open spec fn extra(self, literal: Option<Literal>, c: int, lo: int, hi: int) -> nat {
        match literal {
            Some(l) => count_upto(
                self.links.named(l).len() as int,
                in_window_for(self.links.named(l), c, lo, hi),
            ),
            None => 0,
        }
    }

    /// The record of a clause fits the clause, and its counts are those of
    /// the clause under `base` plus the entries inside the windows.
    pub open spec fn record_ok(
        self,
        c: int,
        base: Seq<Option<bool>>,
        pending: Option<Literal>,
        lo1: int,
        hi1: int,
        lo2: int,
        hi2: int,
    ) -> bool {
        let record = self.records[c];
        let negated = match pending {
            Some(p) => Some(p.negation()),
            None => None,
        };
        &&& record.stat.wf()
        &&& record.stat.total == record.original.len()
        &&& clause_in_range(record.original, self.num_variables)
        &&& record.stat.satisfied == true_count(record.original, base) + self.extra(
            pending,
            c,
            lo1,
            hi1,
        )
        &&& record.stat.unsatisfied == false_count(record.original, base) + self.extra(
            negated,
            c,
            lo2,
            hi2,
        )
        &&& self.links.live[c].len() + record.stat.satisfied + record.stat.unsatisfied
            == record.stat.total
    }

    /// Each row names each clause as often as the clause holds the row's
    /// literal.
    pub open spec fn indexed(self) -> bool {
        forall|literal: Literal, c: int|
            literal.var() < self.num_variables && 0 <= c < self.records.len()
                ==> #[trigger] occurrences(
                self.links.named(literal),
                c,
                self.links.named(literal).len() as int,
            ) == literal_count(self.records[c].original, literal)
    }

    /// The first `bound` clauses are filed under their status, each under no
    /// other, and nothing else is filed.
    pub open spec fn filed(self, bound: int) -> bool {
        forall|status: ClauseStatus, idx: usize| #[trigger]
            self.bucket(status).contains(idx) <==> (idx < bound && self.records[idx as int].stat.status
                == status)
    }

    /// All but the filing: the shape, the links, the records and the index.
    pub open spec fn sound(
        self,
        base: Seq<Option<bool>>,
        pending: Option<Literal>,
        lo1: int,
        hi1: int,
        lo2: int,
        hi2: int,
    ) -> bool {
        &&& 0 <= self.num_variables <= Variable::MAX_VARIABLE_INDEX + 1
        &&& self.links.positive.len() == self.num_variables
        &&& self.links.live.len() == self.records.len()
        &&& base.len() == self.num_variables
        &&& (pending matches Some(p) ==> p.var() < self.num_variables && base[p.var()].is_none())
        &&& self.links.linked(live_in(base, pending, lo1, hi1, lo2, hi2))
        &&& forall|c: int|
            0 <= c < self.records.len() ==> #[trigger] self.record_ok(
                c,
                base,
                pending,
                lo1,
                hi1,
                lo2,
                hi2,
            )
        &&& self.indexed()
    }

    /// The state follows `base` plus the entries inside the windows.
    pub open spec fn tracks(
        self,
        base: Seq<Option<bool>>,
        pending: Option<Literal>,
        lo1: int,
        hi1: int,
        lo2: int,
        hi2: int,
    ) -> bool {
        &&& self.sound(base, pending, lo1, hi1, lo2, hi2)
        &&& self.filed(self.records.len() as int)
        &&& self.records.len() <= usize::MAX
    }

    /// The state follows the assignment.
    pub open spec fn wf(self, assignment: Seq<Option<bool>>) -> bool {
        self.tracks(assignment, None, 0, 0, 0, 0)
    }

    /// The state after one entry of a row has been walked while assigning:
    /// the entry's clause counts one more literal as true or as false, and
    /// the entry lets go of its live literal.
    pub open spec fn detach_step(self, literal: Literal, t: int, makes_true: bool) -> State {
        let c = self.links.row(literal)[t].clause_idx.0;
        let record = self.records[c as int];
        let stat = if makes_true {
            record.stat.with_counts(record.stat.satisfied + 1, record.stat.unsatisfied as int)
        } else {
            record.stat.with_counts(record.stat.satisfied as int, record.stat.unsatisfied + 1)
        };
        State {
            links: self.links.detached(literal, t),
            records: self.records.update(c as int, Record { original: record.original, stat }),
            ..self
        }.refiled(record.stat.status, stat.status, c)
    }

    /// The state after one entry of a row has been walked while taking an
    /// assignment back: the entry's clause counts one literal fewer as true
    /// or as false, and the entry takes a live literal again.
    pub open spec fn attach_step(self, literal: Literal, t: int, was_true: bool) -> State {
        let c = self.links.row(literal)[t].clause_idx.0;
        let record = self.records[c as int];
        let stat = if was_true {
            record.stat.with_counts(record.stat.satisfied - 1, record.stat.unsatisfied as int)
        } else {
            record.stat.with_counts(record.stat.satisfied as int, record.stat.unsatisfied - 1)
        };
        State {
            links: self.links.attached(literal, t),
            records: self.records.update(c as int, Record { original: record.original, stat }),
            ..self
        }.refiled(record.stat.status, stat.status, c)
    }
}

/// Refiling a clause whose status has changed keeps the filing.
pub proof fn lemma_refiled(
    before: State,
    after: State,
    c: int,
    stat: ClauseStat,
)
    requires
        before.filed(before.records.len() as int),
        0 <= c < before.records.len(),
        c <= usize::MAX,
        after.records == before.records.update(
            c,
            Record { original: before.records[c].original, stat },
        ),
        after.falsified == before.refiled(before.records[c].stat.status, stat.status, c as usize).falsified,
        after.satisfied == before.refiled(before.records[c].stat.status, stat.status, c as usize).satisfied,
        after.unit == before.refiled(before.records[c].stat.status, stat.status, c as usize).unit,
        after.unresolved == before.refiled(
            before.records[c].stat.status,
            stat.status,
            c as usize,
        ).unresolved,
    ensures
        after.filed(after.records.len() as int),
{
    assert forall|status: ClauseStatus, idx: usize| #[trigger]
        after.bucket(status).contains(idx) <==> (idx < after.records.len()
            && after.records[idx as int].stat.status == status) by {
        assert(before.bucket(status).contains(idx) <==> (idx < before.records.len()
            && before.records[idx as int].stat.status == status));
    }
}

/// A state that follows an assignment follows it with any literal without
/// a value pending and with empty windows.
pub proof fn lemma_pending_begin(
    state: State,
    base: Seq<Option<bool>>,
    pending: Literal,
    at1: int,
    at2: int,
)
    requires
        state.wf(base),
        pending.var() < state.num_variables,
        base[pending.var()].is_none(),
    ensures
        state.tracks(base, Some(pending), at1, at1, at2, at2),
{
    lemma_linked_ext(
        state.links,
        live_in(base, None, 0, 0, 0, 0),
        live_in(base, Some(pending), at1, at1, at2, at2),
    );
    assert forall|c: int| 0 <= c < state.records.len() implies #[trigger] state.record_ok(
        c,
        base,
        Some(pending),
        at1,
        at1,
        at2,
        at2,
    ) by {
        assert(state.record_ok(c, base, None, 0, 0, 0, 0));
        let row1 = state.links.named(pending);
        let row2 = state.links.named(pending.negation());
        lemma_count_zero(row1.len() as int, in_window_for(row1, c, at1, at1));
        lemma_count_zero(row2.len() as int, in_window_for(row2, c, at2, at2));
    }
}

/// A state that follows an assignment with a literal pending and empty
/// windows follows the assignment.
pub proof fn lemma_pending_end(
    state: State,
    base: Seq<Option<bool>>,
    pending: Literal,
    at1: int,
    at2: int,
)
    requires
        state.tracks(base, Some(pending), at1, at1, at2, at2),
    ensures
        state.wf(base),
{
    lemma_linked_ext(
        state.links,
        live_in(base, Some(pending), at1, at1, at2, at2),
        live_in(base, None, 0, 0, 0, 0),
    );
    assert forall|c: int| 0 <= c < state.records.len() implies #[trigger] state.record_ok(
        c,
        base,
        None,
        0,
        0,
        0,
        0,
    ) by {
        assert(state.record_ok(c, base, Some(pending), at1, at1, at2, at2));
        let row1 = state.links.named(pending);
        let row2 = state.links.named(pending.negation());
        lemma_count_zero(row1.len() as int, in_window_for(row1, c, at1, at1));
        lemma_count_zero(row2.len() as int, in_window_for(row2, c, at2, at2));
    }
}

/// A state that follows an assignment with all entries of the pending
/// literal and of its negation inside the windows follows the assignment
/// with the literal assigned, and the other way round.
pub proof fn lemma_pending_full(state: State, base: Seq<Option<bool>>, pending: Literal)
    requires
        0 <= state.num_variables <= Variable::MAX_VARIABLE_INDEX + 1,
        state.links.positive.len() == state.num_variables,
        state.links.negative.len() == state.num_variables,
        base.len() == state.num_variables,
        pending.var() < state.num_variables,
        base[pending.var()].is_none(),
        state.indexed(),
        forall|c: int|
            0 <= c < state.records.len() ==> clause_in_range(
                (#[trigger] state.records[c]).original,
                state.num_variables,
            ),
    ensures
        state.tracks(
            base,
            Some(pending),
            0,
            state.links.row(pending).len() as int,
            0,
            state.links.row(pending.negation()).len() as int,
        ) <==> state.wf(base.update(pending.var(), Some(pending.positive))),
{
    let after = base.update(pending.var(), Some(pending.positive));
    let negated = pending.negation();
    let len1 = state.links.row(pending).len() as int;
    let len2 = state.links.row(negated).len() as int;
    let row1 = state.links.named(pending);
    let row2 = state.links.named(negated);
    let walking = live_in(base, Some(pending), 0, len1, 0, len2);
    let settled = live_in(after, None, 0, 0, 0, 0);
    assert forall|literal: Literal, t: int|
        literal.var() < state.links.positive.len() && 0 <= t < state.links.row(literal).len()
            implies #[trigger] walking(literal, t) == settled(literal, t) by {}
    assert forall|literal: Literal, t: int|
        literal.var() < state.links.positive.len() && 0 <= t < state.links.row(literal).len()
            implies #[trigger] settled(literal, t) == walking(literal, t) by {}
    assert forall|c: int| 0 <= c < state.records.len() implies (#[trigger] state.record_ok(
        c,
        base,
        Some(pending),
        0,
        len1,
        0,
        len2,
    ) <==> state.record_ok(c, after, None, 0, 0, 0, 0)) by {
        let original = state.records[c].original;
        lemma_counts_after_assign(original, base, pending);
        lemma_count_ext(len1, in_window_for(row1, c, 0, len1), names_clause_at(row1, c));
        lemma_count_ext(len2, in_window_for(row2, c, 0, len2), names_clause_at(row2, c));
        assert(occurrences(row1, c, row1.len() as int) == literal_count(original, pending));
        assert(occurrences(row2, c, row2.len() as int) == literal_count(original, negated));
    }
    if state.tracks(base, Some(pending), 0, len1, 0, len2) {
        assert forall|c: int| 0 <= c < state.records.len() implies #[trigger] state.record_ok(
            c,
            after,
            None,
            0,
            0,
            0,
            0,
        ) by {
            assert(state.record_ok(c, base, Some(pending), 0, len1, 0, len2));
        }
    }
}

/// What holds of the entry that is walked next while assigning: it names a
/// live literal of a clause that has room for one more count, and the
/// literal that `swap_remove` will move is named by an entry of its own.
pub proof fn lemma_detach_ready(
    state: State,
    base: Seq<Option<bool>>,
    pending: Literal,
    lo1: int,
    hi1: int,
    lo2: int,
    hi2: int,
    makes_true: bool,
)
    requires
        state.tracks(base, Some(pending), lo1, hi1, lo2, hi2),
        makes_true ==> 0 <= hi1 < state.links.row(pending).len(),
        !makes_true ==> 0 <= hi2 < state.links.row(pending.negation()).len(),
    ensures
        ({
            let literal = if makes_true { pending } else { pending.negation() };
            let t = if makes_true { hi1 } else { hi2 };
            let element = state.links.row(literal)[t];
            let c = element.clause_idx.0 as int;
            &&& c < state.records.len()
            &&& element.clause_col.is_some()
            &&& element.clause_col.unwrap().0 < state.links.live[c].len()
            &&& state.records[c].stat.wf()
            &&& state.records[c].stat.satisfied + state.records[c].stat.unsatisfied
                < state.records[c].stat.total
            &&& state.bucket(state.records[c].stat.status).contains(element.clause_idx.0)
            &&& forall|status: ClauseStatus|
                status != state.records[c].stat.status ==> !(#[trigger] state.bucket(status)).contains(
                    element.clause_idx.0,
                )
            &&& ({
                let moved = state.links.live[c].last();
                &&& moved.literal.var() < state.num_variables
                &&& moved.variable_col.0 < state.links.row(moved.literal).len()
                &&& state.links.row(moved.literal)[moved.variable_col.0 as int].clause_idx
                    == element.clause_idx
            })
        }),
{
    let literal = if makes_true { pending } else { pending.negation() };
    let t = if makes_true { hi1 } else { hi2 };
    let element = state.links.row(literal)[t];
    let c = element.clause_idx.0 as int;
    assert(state.links.entry_ok(literal, t));
    assert(state.record_ok(c, base, Some(pending), lo1, hi1, lo2, hi2));
    assert(state.links.live_ok(c, state.links.live[c].len() - 1));
}

/// Walking one entry while assigning moves the end of the entry's window
/// by one.
pub proof fn lemma_detach_step(
    state: State,
    base: Seq<Option<bool>>,
    pending: Literal,
    lo1: int,
    hi1: int,
    lo2: int,
    hi2: int,
    makes_true: bool,
)
    requires
        state.tracks(base, Some(pending), lo1, hi1, lo2, hi2),
        makes_true ==> 0 <= lo1 <= hi1 < state.links.row(pending).len(),
        !makes_true ==> 0 <= lo2 <= hi2 < state.links.row(pending.negation()).len(),
    ensures
        makes_true ==> state.detach_step(pending, hi1, true).tracks(
            base,
            Some(pending),
            lo1,
            hi1 + 1,
            lo2,
            hi2,
        ),
        !makes_true ==> state.detach_step(pending.negation(), hi2, false).tracks(
            base,
            Some(pending),
            lo1,
            hi1,
            lo2,
            hi2 + 1,
        ),
{
    let literal = if makes_true { pending } else { pending.negation() };
    let t = if makes_true { hi1 } else { hi2 };
    let after = state.detach_step(literal, t, makes_true);
    let new_hi1 = if makes_true { hi1 + 1 } else { hi1 };
    let new_hi2 = if makes_true { hi2 } else { hi2 + 1 };
    lemma_detach_ready(state, base, pending, lo1, hi1, lo2, hi2, makes_true);
    let element = state.links.row(literal)[t];
    let c = element.clause_idx.0 as int;
    let was_live = live_in(base, Some(pending), lo1, hi1, lo2, hi2);
    let now_live = live_in(base, Some(pending), lo1, new_hi1, lo2, new_hi2);
    lemma_detached(state.links, was_live, literal, t);
    lemma_linked_ext(after.links, live_except(was_live, literal, t, false), now_live);
    let row = state.links.named(literal);
    let record = state.records[c];
    let stat = after.records[c].stat;
    assert forall|d: int| 0 <= d < after.records.len() implies #[trigger] after.record_ok(
        d,
        base,
        Some(pending),
        lo1,
        new_hi1,
        lo2,
        new_hi2,
    ) by {
        assert(state.record_ok(d, base, Some(pending), lo1, hi1, lo2, hi2));
        if makes_true {
            if d == c {
                lemma_count_flip(
                    row.len() as int,
                    in_window_for(row, d, lo1, hi1),
                    in_window_for(row, d, lo1, hi1 + 1),
                    t,
                );
            } else {
                lemma_count_ext(
                    row.len() as int,
                    in_window_for(row, d, lo1, hi1),
                    in_window_for(row, d, lo1, hi1 + 1),
                );
            }
        } else {
            if d == c {
                lemma_count_flip(
                    row.len() as int,
                    in_window_for(row, d, lo2, hi2),
                    in_window_for(row, d, lo2, hi2 + 1),
                    t,
                );
            } else {
                lemma_count_ext(
                    row.len() as int,
                    in_window_for(row, d, lo2, hi2),
                    in_window_for(row, d, lo2, hi2 + 1),
                );
            }
        }
    }
    assert forall|other: Literal, d: int|
        other.var() < after.num_variables && 0 <= d < after.records.len() implies #[trigger] occurrences(
        after.links.named(other),
        d,
        after.links.named(other).len() as int,
    ) == literal_count(after.records[d].original, other) by {}
    lemma_refiled(state, after, c, stat);
}

/// What holds of the entry that is walked next while taking an assignment
/// back: it names no live literal, and its clause counts the literal.
pub proof fn lemma_attach_ready(
    state: State,
    base: Seq<Option<bool>>,
    pending: Literal,
    lo1: int,
    hi1: int,
    lo2: int,
    hi2: int,
    was_true: bool,
)
    requires
        state.tracks(base, Some(pending), lo1, hi1, lo2, hi2),
        was_true ==> 0 <= lo1 < hi1 <= state.links.row(pending).len(),
        !was_true ==> 0 <= lo2 < hi2 <= state.links.row(pending.negation()).len(),
    ensures
        ({
            let literal = if was_true { pending } else { pending.negation() };
            let t = if was_true { lo1 } else { lo2 };
            let element = state.links.row(literal)[t];
            let c = element.clause_idx.0 as int;
            &&& c < state.records.len()
            &&& element.clause_col.is_none()
            &&& state.records[c].stat.wf()
            &&& was_true ==> state.records[c].stat.satisfied > 0
            &&& !was_true ==> state.records[c].stat.unsatisfied > 0
            &&& state.bucket(state.records[c].stat.status).contains(element.clause_idx.0)
            &&& forall|status: ClauseStatus|
                status != state.records[c].stat.status ==> !(#[trigger] state.bucket(status)).contains(
                    element.clause_idx.0,
                )
        }),
{
    let literal = if was_true { pending } else { pending.negation() };
    let t = if was_true { lo1 } else { lo2 };
    let element = state.links.row(literal)[t];
    let c = element.clause_idx.0 as int;
    assert(state.links.entry_ok(literal, t));
    assert(state.record_ok(c, base, Some(pending), lo1, hi1, lo2, hi2));
    let row = state.links.named(literal);
    if was_true {
        assert(in_window_for(row, c, lo1, hi1)(t));
        lemma_count_zero(row.len() as int, in_window_for(row, c, lo1, hi1));
    } else {
        assert(in_window_for(row, c, lo2, hi2)(t));
        lemma_count_zero(row.len() as int, in_window_for(row, c, lo2, hi2));
    }
}

/// Walking one entry while taking an assignment back moves the start of the
/// entry's window by one.
pub proof fn lemma_attach_step(
    state: State,
    base: Seq<Option<bool>>,
    pending: Literal,
    lo1: int,
    hi1: int,
    lo2: int,
    hi2: int,
    was_true: bool,
)
    requires
        state.tracks(base, Some(pending), lo1, hi1, lo2, hi2),
        was_true ==> 0 <= lo1 < hi1 <= state.links.row(pending).len(),
        !was_true ==> 0 <= lo2 < hi2 <= state.links.row(pending.negation()).len(),
        state.links.row(pending).len() <= usize::MAX,
        state.links.row(pending.negation()).len() <= usize::MAX,
    ensures
        was_true ==> state.attach_step(pending, lo1, true).tracks(
            base,
            Some(pending),
            lo1 + 1,
            hi1,
            lo2,
            hi2,
        ),
        !was_true ==> state.attach_step(pending.negation(), lo2, false).tracks(
            base,
            Some(pending),
            lo1,
            hi1,
            lo2 + 1,
            hi2,
        ),
{
    let literal = if was_true { pending } else { pending.negation() };
    let t = if was_true { lo1 } else { lo2 };
    let after = state.attach_step(literal, t, was_true);
    let new_lo1 = if was_true { lo1 + 1 } else { lo1 };
    let new_lo2 = if was_true { lo2 } else { lo2 + 1 };
    lemma_attach_ready(state, base, pending, lo1, hi1, lo2, hi2, was_true);
    let element = state.links.row(literal)[t];
    let c = element.clause_idx.0 as int;
    let was_live = live_in(base, Some(pending), lo1, hi1, lo2, hi2);
    let now_live = live_in(base, Some(pending), new_lo1, hi1, new_lo2, hi2);
    assert(state.record_ok(c, base, Some(pending), lo1, hi1, lo2, hi2));
    lemma_attached(state.links, was_live, literal, t);
    lemma_linked_ext(after.links, live_except(was_live, literal, t, true), now_live);
    let row = state.links.named(literal);
    let stat = after.records[c].stat;
    assert forall|d: int| 0 <= d < after.records.len() implies #[trigger] after.record_ok(
        d,
        base,
        Some(pending),
        new_lo1,
        hi1,
        new_lo2,
        hi2,
    ) by {
        assert(state.record_ok(d, base, Some(pending), lo1, hi1, lo2, hi2));
        if was_true {
            if d == c {
                lemma_count_flip(
                    row.len() as int,
                    in_window_for(row, d, lo1, hi1),
                    in_window_for(row, d, lo1 + 1, hi1),
                    t,
                );
            } else {
                lemma_count_ext(
                    row.len() as int,
                    in_window_for(row, d, lo1, hi1),
                    in_window_for(row, d, lo1 + 1, hi1),
                );
            }
        } else {
            if d == c {
                lemma_count_flip(
                    row.len() as int,
                    in_window_for(row, d, lo2, hi2),
                    in_window_for(row, d, lo2 + 1, hi2),
                    t,
                );
            } else {
                lemma_count_ext(
                    row.len() as int,
                    in_window_for(row, d, lo2, hi2),
                    in_window_for(row, d, lo2 + 1, hi2),
                );
            }
        }
    }
    assert forall|other: Literal, d: int|
        other.var() < after.num_variables && 0 <= d < after.records.len() implies #[trigger] occurrences(
        after.links.named(other),
        d,
        after.links.named(other).len() as int,
    ) == literal_count(after.records[d].original, other) by {}
    lemma_refiled(state, after, c, stat);
}


impl State {
    /// The state with a clause without literals appended, not yet filed.
    pub open spec fn opened(self) -> State {
        State {
            links: Links { live: self.links.live.push(Seq::empty()), ..self.links },
            records: self.records.push(
                Record {
                    original: Seq::empty(),
                    stat: ClauseStat {
                        total: 0,
                        satisfied: 0,
                        unsatisfied: 0,
                        status: ClauseStatus::Falsified,
                    },
                },
            ),
            ..self
        }
    }

    /// The state after the last clause has taken one more literal, whose
    /// value under the assignment is `value`.
    pub open spec fn extended(self, literal: Literal, value: Option<bool>) -> State {
        let c = self.records.len() - 1;
        let record = self.records[c];
        let clause_idx = ClauseIdx(c as usize);
        let original = record.original.push(literal);
        let counted = |satisfied: int, unsatisfied: int|
            Record {
                original,
                stat: ClauseStat {
                    total: (record.stat.total + 1) as usize,
                    satisfied: satisfied as usize,
                    unsatisfied: unsatisfied as usize,
                    status: status_of(record.stat.total + 1, satisfied, unsatisfied),
                },
            };
        match value {
            Some(true) => State {
                links: self.links.with_pushed(literal, WatchElement { clause_idx, clause_col: None }),
                records: self.records.update(
                    c,
                    counted(record.stat.satisfied + 1, record.stat.unsatisfied as int),
                ),
                ..self
            },
            Some(false) => State {
                links: self.links.with_pushed(literal, WatchElement { clause_idx, clause_col: None }),
                records: self.records.update(
                    c,
                    counted(record.stat.satisfied as int, record.stat.unsatisfied + 1),
                ),
                ..self
            },
            None => State {
                links: self.links.with_pushed(
                    literal,
                    WatchElement {
                        clause_idx,
                        clause_col: Some(ClauseCol(self.links.live[c].len() as usize)),
                    },
                ).with_live(
                    c,
                    self.links.live[c].push(
                        WatchedLiteral {
                            literal,
                            variable_col: VariableCol(self.links.row(literal).len() as usize),
                        },
                    ),
                ),
                records: self.records.update(
                    c,
                    counted(record.stat.satisfied as int, record.stat.unsatisfied as int),
                ),
                ..self
            },
        }
    }

    /// The state without clauses over `num_variables` variables.
    pub open spec fn empty(num_variables: int) -> State {
        State {
            num_variables,
            links: Links {
                positive: Seq::new(num_variables as nat, |v: int| Seq::empty()),
                negative: Seq::new(num_variables as nat, |v: int| Seq::empty()),
                live: Seq::empty(),
            },
            records: Seq::empty(),
            falsified: Set::empty(),
            satisfied: Set::empty(),
            unit: Set::empty(),
            unresolved: Set::empty(),
        }
    }
}

/// The state without clauses follows every assignment of its variables.
pub proof fn lemma_empty(num_variables: int, base: Seq<Option<bool>>)
    requires
        0 <= num_variables <= Variable::MAX_VARIABLE_INDEX + 1,
        base.len() == num_variables,
    ensures
        State::empty(num_variables).wf(base),
{
}

/// Appending a clause without literals keeps the state sound and the
/// filing of the clauses that were there.
pub proof fn lemma_opened(state: State, base: Seq<Option<bool>>)
    requires
        state.wf(base),
    ensures
        state.opened().sound(base, None, 0, 0, 0, 0),
        state.opened().filed(state.records.len() as int),
{
    let after = state.opened();
    let m = state.records.len() as int;
    let is_live = live_in(base, None, 0, 0, 0, 0);
    assert forall|literal: Literal, t: int|
        literal.var() < after.links.positive.len() && 0 <= t < after.links.row(literal).len() implies {
        &&& #[trigger] after.links.entry_ok(literal, t)
        &&& after.links.entry_live(literal, t) == is_live(literal, t)
    } by {
        assert(state.links.entry_ok(literal, t));
    }
    assert forall|c: int, k: int|
        0 <= c < after.links.live.len() && 0 <= k < after.links.live[c].len() implies #[trigger] after.links.live_ok(
        c,
        k,
    ) by {
        assert(state.links.live_ok(c, k));
    }
    assert forall|c: int| 0 <= c < after.records.len() implies #[trigger] after.record_ok(
        c,
        base,
        None,
        0,
        0,
        0,
        0,
    ) by {
        if c < m {
            assert(state.record_ok(c, base, None, 0, 0, 0, 0));
        }
    }
    assert forall|literal: Literal, c: int|
        literal.var() < after.num_variables && 0 <= c < after.records.len() implies #[trigger] occurrences(
        after.links.named(literal),
        c,
        after.links.named(literal).len() as int,
    ) == literal_count(after.records[c].original, literal) by {
        let named = state.links.named(literal);
        if c >= m {
            assert forall|t: int| 0 <= t < named.len() implies !#[trigger] names_clause_at(named, c)(
                t,
            ) by {
                assert(state.links.entry_ok(literal, t));
            }
            lemma_count_zero(named.len() as int, names_clause_at(named, c));
        }
    }
    assert forall|status: ClauseStatus, idx: usize| #[trigger]
        after.bucket(status).contains(idx) <==> (idx < m && after.records[idx as int].stat.status
            == status) by {
        assert(state.bucket(status).contains(idx) <==> (idx < m
            && state.records[idx as int].stat.status == status));
    }
}

/// Giving the last clause one more literal keeps the state sound and the
/// filing of the clauses before the last.
pub proof fn lemma_extended(state: State, base: Seq<Option<bool>>, literal: Literal)
    requires
        state.sound(base, None, 0, 0, 0, 0),
        state.filed(state.records.len() - 1),
        state.records.len() > 0,
        state.records.len() - 1 <= usize::MAX,
        literal.var() < state.num_variables,
        state.records.last().stat.total < usize::MAX,
        state.links.row(literal).len() <= usize::MAX,
    ensures
        state.extended(literal, literal.value_under(base)).sound(base, None, 0, 0, 0, 0),
        state.extended(literal, literal.value_under(base)).filed(state.records.len() - 1),
{
    let value = literal.value_under(base);
    let after = state.extended(literal, value);
    let m = state.records.len() - 1;
    let clause_idx = ClauseIdx(m as usize);
    let is_live = live_in(base, None, 0, 0, 0, 0);
    let record = state.records[m];
    assert(state.record_ok(m, base, None, 0, 0, 0, 0));
    let idle = WatchElement { clause_idx, clause_col: None };
    let live = WatchElement {
        clause_idx,
        clause_col: Some(ClauseCol(state.links.live[m].len() as usize)),
    };
    match value {
        Some(_) => {
            lemma_pushed_idle(state.links, is_live, literal, clause_idx);
            lemma_with_pushed(state.links, literal, idle);
        },
        None => {
            lemma_pushed_live(state.links, is_live, literal, clause_idx);
            lemma_with_pushed(state.links, literal, live);
        },
    }
    assert forall|other: Literal| other.var() < state.num_variables implies #[trigger] after.links.named(
        other,
    ) == if other == literal {
        state.links.named(other).push(m as usize)
    } else {
        state.links.named(other)
    } by {}
    assert forall|c: int| 0 <= c < after.records.len() implies #[trigger] after.record_ok(
        c,
        base,
        None,
        0,
        0,
        0,
        0,
    ) by {
        assert(state.record_ok(c, base, None, 0, 0, 0, 0));
        if c == m {
            lemma_counts_push(record.original, base, literal, literal);
            assert forall|i: int| 0 <= i < after.records[c].original.len() implies (
            #[trigger] after.records[c].original[i]).var() < after.num_variables by {}
        }
    }
    assert forall|other: Literal, c: int|
        other.var() < after.num_variables && 0 <= c < after.records.len() implies #[trigger] occurrences(
        after.links.named(other),
        c,
        after.links.named(other).len() as int,
    ) == literal_count(after.records[c].original, other) by {
        let named = state.links.named(other);
        if other == literal {
            lemma_occurrences_push(named, m as usize, c);
        }
        if c == m {
            lemma_counts_push(record.original, base, literal, other);
        }
    }
    assert forall|status: ClauseStatus, idx: usize| #[trigger]
        after.bucket(status).contains(idx) <==> (idx < m && after.records[idx as int].stat.status
            == status) by {
        assert(state.bucket(status).contains(idx) <==> (idx < m
            && state.records[idx as int].stat.status == status));
    }
}

/// Filing the last clause under its status completes the filing.
pub proof fn lemma_closed(state: State, base: Seq<Option<bool>>)
    requires
        state.sound(base, None, 0, 0, 0, 0),
        state.filed(state.records.len() - 1),
        state.records.len() > 0,
        state.records.len() <= usize::MAX,
    ensures
        state.filed_under(
            state.records.last().stat.status,
            (state.records.len() - 1) as usize,
        ).wf(base),
{
    let m = state.records.len() - 1;
    let after = state.filed_under(state.records.last().stat.status, m as usize);
    assert forall|c: int| 0 <= c < after.records.len() implies #[trigger] after.record_ok(
        c,
        base,
        None,
        0,
        0,
        0,
        0,
    ) by {
        assert(state.record_ok(c, base, None, 0, 0, 0, 0));
    }
    assert forall|status: ClauseStatus, idx: usize| #[trigger]
        after.bucket(status).contains(idx) <==> (idx < after.records.len()
            && after.records[idx as int].stat.status == status) by {
        assert(state.bucket(status).contains(idx) <==> (idx < m
            && state.records[idx as int].stat.status == status));
    }
}

/// In a state that follows an assignment, every live literal of a clause
/// stands in the clause and its variable has no value, and the live
/// literals are as many as the literals of the clause that are neither true
/// nor false.
pub proof fn lemma_live_literal(state: State, base: Seq<Option<bool>>, c: int, k: int) -> (position:
    int)
    requires
        state.wf(base),
        0 <= c < state.records.len(),
        0 <= k < state.links.live[c].len(),
    ensures
        0 <= position < state.records[c].original.len(),
        state.records[c].original[position] == state.links.live[c][k].literal,
        state.links.live[c][k].literal.var() < state.num_variables,
        base[state.links.live[c][k].literal.var()].is_none(),
        state.links.live[c].len() + true_count(state.records[c].original, base) + false_count(
            state.records[c].original,
            base,
        ) == state.records[c].original.len(),
{
    assert(state.record_ok(c, base, None, 0, 0, 0, 0));
    let original = state.records[c].original;
    assert(state.links.live_ok(c, k));
    let watched = state.links.live[c][k];
    let literal = watched.literal;
    let col = watched.variable_col.0 as int;
    assert(state.links.entry_ok(literal, col));
    let named = state.links.named(literal);
    assert(names_clause_at(named, c)(col));
    lemma_count_zero(named.len() as int, names_clause_at(named, c));
    assert(occurrences(named, c, named.len() as int) == literal_count(original, literal));
    lemma_count_witness(original.len() as int, is_literal_at(original, literal))
}

/// Holds at the positions of the live literals of a clause that hold the
/// given literal.
pub open spec fn is_live_literal_at(live: Seq<WatchedLiteral>, literal: Literal) -> spec_fn(int) -> bool {
    |k: int| live[k].literal == literal
}

/// In a state that follows an assignment, a literal stands among the live
/// literals of a clause as often as it stands in the clause where its
/// variable has no value, and not at all where its variable has one.
pub proof fn lemma_live_count(state: State, base: Seq<Option<bool>>, c: int, literal: Literal)
    requires
        state.wf(base),
        0 <= c < state.records.len(),
        literal.var() < state.num_variables,
    ensures
        count_upto(
            state.links.live[c].len() as int,
            is_live_literal_at(state.links.live[c], literal),
        ) == if base[literal.var()].is_none() {
            literal_count(state.records[c].original, literal)
        } else {
            0
        },
{
    let live = state.links.live[c];
    let row = state.links.row(literal);
    let named = state.links.named(literal);
    let among_live = is_live_literal_at(live, literal);
    if base[literal.var()].is_none() {
        let to_live = |t: int| row[t].clause_col.unwrap().0 as int;
        let to_row = |k: int| live[k].variable_col.0 as int;
        assert forall|t: int| 0 <= t < named.len() && #[trigger] names_clause_at(named, c)(t) implies 0
            <= to_live(t) < live.len() && among_live(to_live(t)) && to_row(to_live(t)) == t by {
            assert(state.links.entry_ok(literal, t));
            assert(state.links.entry_live(literal, t) == live_in(base, None, 0, 0, 0, 0)(literal, t));
        }
        assert forall|k: int| 0 <= k < live.len() && #[trigger] among_live(k) implies 0 <= to_row(k)
            < named.len() && names_clause_at(named, c)(to_row(k)) && to_live(to_row(k)) == k by {
            assert(state.links.live_ok(c, k));
        }
        lemma_count_matched(
            named.len() as int,
            names_clause_at(named, c),
            live.len() as int,
            among_live,
            to_live,
            to_row,
        );
        assert(occurrences(named, c, named.len() as int) == literal_count(
            state.records[c].original,
            literal,
        ));
    } else {
        assert forall|k: int| 0 <= k < live.len() implies !#[trigger] among_live(k) by {
            let position = lemma_live_literal(state, base, c, k);
        }
        lemma_count_zero(live.len() as int, among_live);
    }
}

/// In a state that follows an assignment, a clause with status `Unit` has
/// one live literal. That literal stands in the clause, its variable has no
/// value, and every other literal of the clause is false.
pub proof fn lemma_unit_literal(state: State, base: Seq<Option<bool>>, c: int) -> (position: int)
    requires
        state.wf(base),
        0 <= c < state.records.len(),
        state.records[c].stat.status == ClauseStatus::Unit,
    ensures
        state.links.live[c].len() == 1,
        0 <= position < state.records[c].original.len(),
        state.records[c].original[position] == state.links.live[c][0].literal,
        state.links.live[c][0].literal.var() < state.num_variables,
        base[state.links.live[c][0].literal.var()].is_none(),
        forall|i: int|
            0 <= i < state.records[c].original.len() && i != position ==> (
            #[trigger] state.records[c].original[i]).value_under(base) == Some(false),
{
    assert(state.record_ok(c, base, None, 0, 0, 0, 0));
    let original = state.records[c].original;
    let position = lemma_live_literal(state, base, c, 0);
    lemma_unit_others_false(original, base, position);
    position
}

} // verus!
