//! Conflict analysis: from a clause whose literals are all false, and the
//! clauses that forced the literals of the current decision level, the
//! clause of the first unique implication point.
//!
//! The literals of the current level are walked from the latest to the
//! earliest. A literal that the clause under construction depends on is
//! replaced by the other literals of the clause that forced it, until one
//! literal of the current level is left.

use crate::count::{count_upto, lemma_count_bound, lemma_count_ext, lemma_count_flip, lemma_count_zero};
use crate::formula::{clause_holds, Clause, Literal, Variable};
use vstd::pervasive::unreached;
use vstd::prelude::*;

verus! {

/// What the analysis asks of the search: the value and the decision level of
/// each assigned variable, and the clause that forced it where one did.
pub trait ConflictDataProvider {
    /// Whether the variable has a value.
    spec fn assigned(&self, variable: int) -> bool;

    /// The value of an assigned variable.
    spec fn value_of(&self, variable: int) -> bool;

    /// The decision level at which an assigned variable got its value.
    spec fn level_of(&self, variable: int) -> nat;

    /// The clause that forced the value of an assigned variable, `None` for
    /// a variable whose value was decided.
    spec fn antecedent_of(&self, variable: int) -> Option<Seq<Literal>>;

    /// Returns the current value assigned to a variable.
    fn value(&self, variable: Variable) -> (value: bool)
        requires
            self.assigned(variable.0 as int),
        ensures
            value == self.value_of(variable.0 as int),
    ;

    /// Returns the decision level of a variable.
    fn level(&self, variable: Variable) -> (level: usize)
        requires
            self.assigned(variable.0 as int),
        ensures
            level == self.level_of(variable.0 as int),
    ;

    /// Returns the clause that forced a variable, `None` if the variable is
    /// a decision variable.
    fn antecedents(&self, variable: Variable) -> (clause: Option<&Clause>)
        requires
            self.assigned(variable.0 as int),
        ensures
            match clause {
                Some(clause) => self.antecedent_of(variable.0 as int) == Some(clause@),
                None => self.antecedent_of(variable.0 as int).is_none(),
            },
    ;
}

/// Whether the literal is false under the values of the search.
pub open spec fn is_false<P: ConflictDataProvider>(provider: &P, literal: Literal) -> bool {
    provider.assigned(literal.var()) && provider.value_of(literal.var()) != literal.positive
}

/// Whether the literal is a false literal of a variable below `n` that got
/// its value at an earlier level, or at the current level as one of the
/// first `bound` literals of the trail.
pub open spec fn explains<P: ConflictDataProvider>(
    provider: &P,
    n: int,
    level: nat,
    trail: Seq<Literal>,
    bound: int,
    literal: Literal,
) -> bool {
    &&& literal.var() < n
    &&& is_false(provider, literal)
    &&& provider.level_of(literal.var()) <= level
    &&& provider.level_of(literal.var()) == level ==> exists|q: int|
        0 <= q < bound && (#[trigger] trail[q]).var() == literal.var()
}

/// Whether every literal of the clause but `forced` is explained by the
/// first `bound` literals of the trail and the earlier levels.
pub open spec fn explained_but<P: ConflictDataProvider>(
    provider: &P,
    n: int,
    level: nat,
    trail: Seq<Literal>,
    bound: int,
    forced: Option<Literal>,
    clause: Seq<Literal>,
) -> bool {
    forall|i: int|
        0 <= i < clause.len() ==> Some(#[trigger] clause[i]) == forced || explains(
            provider,
            n,
            level,
            trail,
            bound,
            clause[i],
        )
}

/// Whether `trail` is sound as the literals of the current level in the
/// order in which they got their values: each is true and of the current
/// level, no variable stands twice, and each but the first was forced by a
/// clause whose other literals are explained by what came before it.
pub open spec fn trail_ok<P: ConflictDataProvider>(
    provider: &P,
    n: int,
    level: nat,
    trail: Seq<Literal>,
) -> bool {
    &&& forall|q: int|
        0 <= q < trail.len() ==> {
            &&& (#[trigger] trail[q]).var() < n
            &&& provider.assigned(trail[q].var())
            &&& provider.value_of(trail[q].var()) == trail[q].positive
            &&& provider.level_of(trail[q].var()) == level
        }
    &&& forall|q: int, r: int|
        0 <= q < r < trail.len() ==> (#[trigger] trail[q]).var() != (#[trigger] trail[r]).var()
    &&& forall|q: int|
        0 < q < trail.len() ==> {
            &&& provider.antecedent_of((#[trigger] trail[q]).var()).is_some()
            &&& explained_but(
                provider,
                n,
                level,
                trail,
                q,
                Some(trail[q]),
                provider.antecedent_of(trail[q].var()).unwrap(),
            )
        }
}

/// Whether the total assignment makes the conflicting clause and every
/// forcing clause of the trail hold and agrees with the search on the
/// variables of level zero.
pub open spec fn respects<P: ConflictDataProvider>(
    provider: &P,
    n: int,
    trail: Seq<Literal>,
    conflict: Seq<Literal>,
    total: Seq<bool>,
) -> bool {
    &&& total.len() == n
    &&& clause_holds(conflict, total)
    &&& forall|q: int|
        0 < q < trail.len() ==> clause_holds(
            provider.antecedent_of((#[trigger] trail[q]).var()).unwrap(),
            total,
        )
    &&& forall|v: int|
        0 <= v < n && provider.assigned(v) && provider.level_of(v) == 0 ==> #[trigger] total[v]
            == provider.value_of(v)
}

/// Holds at the positions of the trail whose variable has been seen.
pub open spec fn seen_at(trail: Seq<Literal>, seen: Seq<bool>) -> spec_fn(int) -> bool {
    |q: int| seen[trail[q].var()]
}

/// Whether some recorded literal holds under the total assignment.
pub open spec fn some_recorded_holds(recorded: Seq<Literal>, total: Seq<bool>) -> bool {
    exists|k: int| 0 <= k < recorded.len() && (#[trigger] recorded[k]).holds(total)
}

/// Whether some seen literal among the first `next` of the trail fails
/// under the total assignment.
pub open spec fn some_pending_fails(
    trail: Seq<Literal>,
    seen: Seq<bool>,
    next: int,
    total: Seq<bool>,
) -> bool {
    exists|q: int| 0 <= q < next && seen[(#[trigger] trail[q]).var()] && !trail[q].holds(total)
}

/// Whether the literal of the variable is among the recorded ones.
pub open spec fn is_recorded(recorded: Seq<Literal>, variable: int) -> bool {
    exists|k: int| 0 <= k < recorded.len() && (#[trigger] recorded[k]).var() == variable
}

/// Whether the variable is in the queue of the seen variables.
pub open spec fn is_queued(queue: Seq<Variable>, variable: int) -> bool {
    exists|k: int| 0 <= k < queue.len() && (#[trigger] queue[k]).0 == variable
}

/// What holds of the marks, the recorded literals and the counter between
/// two steps of the analysis, when the first `next` literals of the trail
/// are still to be walked.
pub open spec fn structure<P: ConflictDataProvider>(
    provider: &P,
    level: nat,
    trail: Seq<Literal>,
    seen: Seq<bool>,
    queue: Seq<Variable>,
    recorded: Seq<Literal>,
    count: int,
    next: int,
) -> bool {
    &&& 0 <= next <= trail.len()
    &&& forall|v: int| 0 <= v < seen.len() && #[trigger] seen[v] ==> provider.assigned(v) && is_queued(queue, v)
    &&& forall|k: int| 0 <= k < queue.len() ==> (#[trigger] queue[k]).0 < seen.len()
    &&& forall|k: int|
        0 <= k < recorded.len() ==> {
            &&& (#[trigger] recorded[k]).var() < seen.len()
            &&& seen[recorded[k].var()]
            &&& is_false(provider, recorded[k])
            &&& 0 < provider.level_of(recorded[k].var()) < level
        }
    &&& forall|j: int, k: int|
        0 <= j < k < recorded.len() ==> (#[trigger] recorded[j]).var() != (#[trigger] recorded[k]).var()
    &&& forall|v: int|
        0 <= v < seen.len() && #[trigger] seen[v] && 0 < provider.level_of(v) < level
            ==> is_recorded(recorded, v)
    &&& count == count_upto(next, seen_at(trail, seen))
}

/// What the clause under construction means between two steps: under every
/// total assignment that respects the clauses, a recorded literal holds or
/// a seen literal of the trail that is still to be walked fails.
pub open spec fn meaning<P: ConflictDataProvider>(
    provider: &P,
    trail: Seq<Literal>,
    conflict: Seq<Literal>,
    seen: Seq<bool>,
    recorded: Seq<Literal>,
    next: int,
) -> bool {
    forall|total: Seq<bool>| #[trigger]
        respects(provider, seen.len() as int, trail, conflict, total) ==> some_recorded_holds(
            recorded,
            total,
        ) || some_pending_fails(trail, seen, next, total)
}

/// The marks after the variables of the first `upto` literals of a clause
/// have been marked.
pub open spec fn marked(seen: Seq<bool>, clause: Seq<Literal>, upto: int) -> Seq<bool>
    decreases upto,
{
    if upto <= 0 {
        seen
    } else {
        marked(seen, clause, upto - 1).update(clause[upto - 1].var(), true)
    }
}

/// The marks when the literals of the trail from position `from` on have
/// been walked: the variables of the conflicting clause are marked, and for
/// every marked literal that has been walked the variables of the clause
/// that forced it.
pub open spec fn marks_at<P: ConflictDataProvider>(
    provider: &P,
    n: int,
    trail: Seq<Literal>,
    conflict: Seq<Literal>,
    from: int,
) -> Seq<bool>
    decreases trail.len() - from,
{
    if from >= trail.len() {
        marked(Seq::new(n as nat, |v: int| false), conflict, conflict.len() as int)
    } else {
        let later = marks_at(provider, n, trail, conflict, from + 1);
        match provider.antecedent_of(trail[from].var()) {
            Some(reason) => if later[trail[from].var()] {
                marked(later, reason, reason.len() as int)
            } else {
                later
            },
            None => later,
        }
    }
}

/// Whether position `p` of the trail is an implication point: when the
/// literals after it have been walked, its literal is marked and no literal
/// before it is.
pub open spec fn is_implication_point<P: ConflictDataProvider>(
    provider: &P,
    n: int,
    trail: Seq<Literal>,
    conflict: Seq<Literal>,
    p: int,
) -> bool {
    let marks = marks_at(provider, n, trail, conflict, p + 1);
    marks[trail[p].var()] && count_upto(p, seen_at(trail, marks)) == 0
}

/// Whether the clause is the one of the implication point at position `p`:
/// its last literal is the negation of the literal at `p`, and before it
/// stand the negations of the marked literals of earlier levels but level
/// zero, each once.
pub open spec fn is_clause_of_point<P: ConflictDataProvider>(
    provider: &P,
    n: int,
    level: nat,
    trail: Seq<Literal>,
    conflict: Seq<Literal>,
    p: int,
    learned: Seq<Literal>,
) -> bool {
    let marks = marks_at(provider, n, trail, conflict, p + 1);
    &&& learned.len() > 0
    &&& learned.last() == trail[p].negation()
    &&& forall|v: int|
        0 <= v < n ==> (is_recorded(learned.drop_last(), v) <==> #[trigger] marks[v] && 0
            < provider.level_of(v) < level)
    &&& forall|k: int| 0 <= k < learned.len() ==> is_false(provider, #[trigger] learned[k])
    &&& forall|j: int, k: int|
        0 <= j < k < learned.len() ==> (#[trigger] learned[j]).var() != (#[trigger] learned[k]).var()
}

/// The marks and the scratch storage of the analysis.
pub struct ConflictAnalyzer {
    /// For each variable, whether it has been seen.
    pub seen: Vec<bool>,
    /// The variables that have been seen.
    pub seen_queue: Vec<Variable>,
}

/// One analysis in progress.
pub struct Session<'inner, 'solver, P> {
    pub inner: &'inner mut ConflictAnalyzer,
    pub current_level: usize,
    pub data_provider: &'solver P,
    /// The literals of the clause to learn that are known so far.
    pub recorded: Vec<Literal>,
    /// The number of seen literals of the current level that are still to
    /// be walked.
    pub unresolved_on_current_level: usize,
    /// The literals of the current level, in the order in which they got
    /// their values.
    pub trail: Ghost<Seq<Literal>>,
    /// The number of literals of the trail that are still to be walked.
    pub next: Ghost<int>,
}

impl ConflictAnalyzer {
    /// The number of variables that the analyzer has marks for.
    pub open spec fn num_variables(&self) -> nat {
        self.seen@.len()
    }

    /// No variable is marked and the queue is empty.
    pub open spec fn idle(&self) -> bool {
        &&& self.seen_queue@.len() == 0
        &&& forall|v: int| 0 <= v < self.seen@.len() ==> !#[trigger] self.seen@[v]
    }

    /// An analyzer for `num_variables` variables.
    pub fn new(num_variables: usize) -> (analyzer: ConflictAnalyzer)
        ensures
            analyzer.idle(),
            analyzer.num_variables() == num_variables,
    {
        let mut seen: Vec<bool> = Vec::new();
        let mut variable: usize = 0;
        while variable < num_variables
            invariant
                variable <= num_variables,
                seen@.len() == variable,
                forall|v: int| 0 <= v < variable ==> !#[trigger] seen@[v],
            decreases num_variables - variable,
        {
            seen.push(false);
            variable += 1;
        }
        ConflictAnalyzer { seen, seen_queue: Vec::new() }
    }

    /// Every marked variable is in the queue, and the queue holds variables
    /// that the analyzer has marks for.
    pub open spec fn queued(&self) -> bool {
        &&& forall|v: int|
            0 <= v < self.seen@.len() && #[trigger] self.seen@[v] ==> is_queued(self.seen_queue@, v)
        &&& forall|k: int|
            0 <= k < self.seen_queue@.len() ==> (#[trigger] self.seen_queue@[k]).0 < self.seen@.len()
    }

    /// Takes every mark back.
    pub fn clear(&mut self)
        requires
            old(self).queued(),
        ensures
            final(self).idle(),
            final(self).num_variables() == old(self).num_variables(),
    {
        let mut k: usize = 0;
        while k < self.seen_queue.len()
            invariant
                k <= self.seen_queue@.len(),
                self.seen_queue@ == old(self).seen_queue@,
                self.seen@.len() == old(self).seen@.len(),
                forall|j: int|
                    0 <= j < self.seen_queue@.len() ==> (#[trigger] self.seen_queue@[j]).0
                        < self.seen@.len(),
                forall|j: int| 0 <= j < k ==> !self.seen@[(#[trigger] self.seen_queue@[j]).0 as int],
                forall|v: int|
                    0 <= v < self.seen@.len() && #[trigger] self.seen@[v] ==> old(self).seen@[v],
            decreases self.seen_queue@.len() - k,
        {
            let variable = self.seen_queue[k];
            self.seen[variable.index()] = false;
            k += 1;
        }
        proof {
            assert forall|v: int| 0 <= v < self.seen@.len() implies !#[trigger] self.seen@[v] by {}
        }
        self.seen_queue.clear();
    }

    /// Marks the variable; returns true if it was not marked before.
    pub fn mark_if_unseen(&mut self, variable: Variable) -> (fresh: bool)
        requires
            variable.0 < old(self).seen@.len(),
        ensures
            fresh == !old(self).seen@[variable.0 as int],
            final(self).seen@ == old(self).seen@.update(variable.0 as int, true),
            fresh ==> final(self).seen_queue@ == old(self).seen_queue@.push(variable),
            !fresh ==> final(self).seen_queue@ == old(self).seen_queue@,
    {
        if self.seen[variable.index()] {
            false
        } else {
            self.seen[variable.index()] = true;
            self.seen_queue.push(variable);
            true
        }
    }
}


/// A literal that holds under a total assignment that agrees with the
/// search at level zero, and that is explained by the first `bound` literals
/// of the trail, is a recorded literal or the negation of a seen literal
/// among them.
proof fn lemma_explained_literal<P: ConflictDataProvider>(
    provider: &P,
    level: nat,
    trail: Seq<Literal>,
    bound: int,
    literal: Literal,
    seen: Seq<bool>,
    recorded: Seq<Literal>,
    total: Seq<bool>,
)
    requires
        bound <= trail.len(),
        total.len() == seen.len(),
        forall|v: int|
            0 <= v < seen.len() && provider.assigned(v) && provider.level_of(v) == 0
                ==> #[trigger] total[v] == provider.value_of(v),
        forall|q: int|
            0 <= q < trail.len() ==> provider.value_of((#[trigger] trail[q]).var())
                == trail[q].positive,
        forall|k: int| 0 <= k < recorded.len() ==> is_false(provider, #[trigger] recorded[k]),
        forall|v: int|
            0 <= v < seen.len() && #[trigger] seen[v] && 0 < provider.level_of(v) < level
                ==> is_recorded(recorded, v),
        explains(provider, seen.len() as int, level, trail, bound, literal),
        seen[literal.var()],
        literal.holds(total),
    ensures
        some_recorded_holds(recorded, total) || some_pending_fails(trail, seen, bound, total),
{
    let v = literal.var();
}

/// Once the literals of the conflicting clause have been marked, the clause
/// under construction means what it should.
proof fn lemma_meaning_start<P: ConflictDataProvider>(
    provider: &P,
    level: nat,
    trail: Seq<Literal>,
    conflict: Seq<Literal>,
    seen: Seq<bool>,
    queue: Seq<Variable>,
    recorded: Seq<Literal>,
    count: int,
)
    requires
        trail_ok(provider, seen.len() as int, level, trail),
        explained_but(provider, seen.len() as int, level, trail, trail.len() as int, None, conflict),
        structure(provider, level, trail, seen, queue, recorded, count, trail.len() as int),
        forall|i: int| 0 <= i < conflict.len() ==> seen[(#[trigger] conflict[i]).var()],
    ensures
        meaning(provider, trail, conflict, seen, recorded, trail.len() as int),
{
    assert forall|total: Seq<bool>| #[trigger]
        respects(provider, seen.len() as int, trail, conflict, total) implies some_recorded_holds(
        recorded,
        total,
    ) || some_pending_fails(trail, seen, trail.len() as int, total) by {
        let i = choose|i: int| 0 <= i < conflict.len() && (#[trigger] conflict[i]).holds(total);
        lemma_explained_literal(
            provider,
            level,
            trail,
            trail.len() as int,
            conflict[i],
            seen,
            recorded,
            total,
        );
    }
}

/// Replacing the seen literal at position `next` of the trail by the other
/// literals of the clause that forced it keeps the meaning of the clause
/// under construction.
proof fn lemma_meaning_step<P: ConflictDataProvider>(
    provider: &P,
    level: nat,
    trail: Seq<Literal>,
    conflict: Seq<Literal>,
    seen: Seq<bool>,
    recorded: Seq<Literal>,
    now_seen: Seq<bool>,
    queue: Seq<Variable>,
    now_recorded: Seq<Literal>,
    count: int,
    next: int,
)
    requires
        trail_ok(provider, seen.len() as int, level, trail),
        0 < next < trail.len(),
        meaning(provider, trail, conflict, seen, recorded, next + 1),
        now_seen.len() == seen.len(),
        forall|v: int| 0 <= v < seen.len() && seen[v] ==> #[trigger] now_seen[v],
        recorded.len() <= now_recorded.len(),
        forall|k: int| 0 <= k < recorded.len() ==> #[trigger] now_recorded[k] == recorded[k],
        structure(provider, level, trail, now_seen, queue, now_recorded, count, next),
        forall|i: int|
            0 <= i < provider.antecedent_of(trail[next].var()).unwrap().len() ==> now_seen[(
            #[trigger] provider.antecedent_of(trail[next].var()).unwrap()[i]).var()],
    ensures
        meaning(provider, trail, conflict, now_seen, now_recorded, next),
{
    assert forall|total: Seq<bool>| #[trigger]
        respects(provider, now_seen.len() as int, trail, conflict, total) implies some_recorded_holds(
        now_recorded,
        total,
    ) || some_pending_fails(trail, now_seen, next, total) by {
        if some_recorded_holds(recorded, total) {
            let k = choose|k: int| 0 <= k < recorded.len() && (#[trigger] recorded[k]).holds(total);
            assert(now_recorded[k].holds(total));
        } else {
            let q = choose|q: int|
                0 <= q < next + 1 && seen[(#[trigger] trail[q]).var()] && !trail[q].holds(total);
        }
    }
}

/// Where one seen literal of the trail is still to be walked and it is the
/// one at position `next`, the recorded literals together with its negation
/// hold under every total assignment that respects the clauses.
proof fn lemma_meaning_end<P: ConflictDataProvider>(
    provider: &P,
    level: nat,
    trail: Seq<Literal>,
    conflict: Seq<Literal>,
    seen: Seq<bool>,
    recorded: Seq<Literal>,
    next: int,
    learned: Seq<Literal>,
)
    requires
        0 <= next < trail.len(),
        meaning(provider, trail, conflict, seen, recorded, next + 1),
        count_upto(next + 1, seen_at(trail, seen)) == 1,
        seen[trail[next].var()],
        learned == recorded.push(trail[next].negation()),
    ensures
        forall|total: Seq<bool>| #[trigger]
            respects(provider, seen.len() as int, trail, conflict, total) ==> clause_holds(
                learned,
                total,
            ),
{
    lemma_count_zero(next, seen_at(trail, seen));
    assert forall|total: Seq<bool>| #[trigger]
        respects(provider, seen.len() as int, trail, conflict, total) implies clause_holds(
        learned,
        total,
    ) by {
        if some_recorded_holds(recorded, total) {
            let k = choose|k: int| 0 <= k < recorded.len() && (#[trigger] recorded[k]).holds(total);
            assert(learned[k].holds(total));
        } else {
            let q = choose|q: int|
                0 <= q < next + 1 && seen[(#[trigger] trail[q]).var()] && !trail[q].holds(total);
            if q < next {
                assert(seen_at(trail, seen)(q));
            }
            assert(learned[recorded.len() as int].holds(total));
        }
    }
}

impl<'inner, 'solver, P: ConflictDataProvider> Session<'inner, 'solver, P> {
    /// The marks, the recorded literals and the counter fit the trail.
    pub open spec fn consistent(&self) -> bool {
        &&& trail_ok(
            self.data_provider,
            self.inner.seen@.len() as int,
            self.current_level as nat,
            self.trail@,
        )
        &&& structure(
            self.data_provider,
            self.current_level as nat,
            self.trail@,
            self.inner.seen@,
            self.inner.seen_queue@,
            self.recorded@,
            self.unresolved_on_current_level as int,
            self.next@,
        )
        &&& self.trail@.len() <= usize::MAX
    }

    /// Whether the clause can be added: each of its literals has been seen
    /// or is explained by the literals of the trail that are still to be
    /// walked and the earlier levels.
    pub open spec fn admits(&self, clause: Seq<Literal>) -> bool {
        forall|i: int|
            0 <= i < clause.len() ==> {
                &&& (#[trigger] clause[i]).var() < self.inner.seen@.len()
                &&& self.inner.seen@[clause[i].var()] || explains(
                    self.data_provider,
                    self.inner.seen@.len() as int,
                    self.current_level as nat,
                    self.trail@,
                    self.next@,
                    clause[i],
                )
            }
    }

    /// Starts an analysis at a decision level.
    pub fn new(
        inner: &'inner mut ConflictAnalyzer,
        data_provider: &'solver P,
        current_level: usize,
    ) -> (session: Session<'inner, 'solver, P>)
        ensures
            *session.inner == *old(inner),
            *final(session.inner) == *final(inner),
            session.data_provider == data_provider,
            session.current_level == current_level,
            session.recorded@.len() == 0,
            session.unresolved_on_current_level == 0,
            session.trail@.len() == 0,
            session.next@ == 0,
    {
        Session {
            inner,
            current_level,
            data_provider,
            recorded: Vec::new(),
            unresolved_on_current_level: 0,
            trail: Ghost(Seq::empty()),
            next: Ghost(0),
        }
    }

    /// Marks the variables of a clause. A literal whose variable is marked
    /// for the first time is counted where it is of the current level and
    /// recorded where it is of an earlier level but level zero.
    pub fn add_clause(&mut self, clause: &Clause)
        requires
            old(self).consistent(),
            old(self).admits(clause@),
        ensures
            final(self).consistent(),
            *final(final(self).inner) == *final(old(self).inner),
            final(self).data_provider == old(self).data_provider,
            final(self).current_level == old(self).current_level,
            final(self).trail == old(self).trail,
            final(self).next == old(self).next,
            final(self).inner.seen@ == marked(
                old(self).inner.seen@,
                clause@,
                clause@.len() as int,
            ),
            final(self).inner.seen@.len() == old(self).inner.seen@.len(),
            forall|v: int|
                0 <= v < old(self).inner.seen@.len() && old(self).inner.seen@[v]
                    ==> #[trigger] final(self).inner.seen@[v],
            forall|i: int|
                0 <= i < clause@.len() ==> final(self).inner.seen@[(#[trigger] clause@[i]).var()],
            old(self).recorded@.len() <= final(self).recorded@.len(),
            forall|k: int|
                0 <= k < old(self).recorded@.len() ==> #[trigger] final(self).recorded@[k] == old(
                    self,
                ).recorded@[k],
            old(self).unresolved_on_current_level <= final(self).unresolved_on_current_level,
    {
        let ghost n = self.inner.seen@.len() as int;
        let ghost level = self.current_level as nat;
        let ghost trail = self.trail@;
        let ghost next = self.next@;
        let mut position: usize = 0;
        while position < clause.num_literals()
            invariant
                position <= clause@.len(),
                self.consistent(),
                self.admits(clause@),
                *final(self.inner) == *final(old(self).inner),
                self.data_provider == old(self).data_provider,
                self.current_level == old(self).current_level,
                self.trail == old(self).trail,
                self.next == old(self).next,
                self.inner.seen@.len() == n,
                self.inner.seen@ == marked(old(self).inner.seen@, clause@, position as int),
                level == self.current_level,
                trail == self.trail@,
                next == self.next@,
                forall|v: int|
                    0 <= v < n && old(self).inner.seen@[v] ==> #[trigger] self.inner.seen@[v],
                forall|i: int| 0 <= i < position ==> self.inner.seen@[(#[trigger] clause@[i]).var()],
                old(self).recorded@.len() <= self.recorded@.len(),
                forall|k: int|
                    0 <= k < old(self).recorded@.len() ==> #[trigger] self.recorded@[k] == old(
                        self,
                    ).recorded@[k],
                old(self).unresolved_on_current_level <= self.unresolved_on_current_level,
            decreases clause@.len() - position,
        {
            let literal = clause.literal(position);
            let ghost v = literal.var();
            let ghost seen = self.inner.seen@;
            let ghost queue = self.inner.seen_queue@;
            let ghost recorded = self.recorded@;
            let ghost provider = self.data_provider;
            if self.inner.mark_if_unseen(literal.variable()) {
                let ghost now_seen = self.inner.seen@;
                let ghost now_queue = self.inner.seen_queue@;
                proof {
                    assert forall|u: int| 0 <= u < n && #[trigger] now_seen[u] implies provider.assigned(
                        u,
                    ) && is_queued(now_queue, u) by {
                        if u == v {
                            assert(now_queue[queue.len() as int].0 == v);
                        } else {
                            let k = choose|k: int| 0 <= k < queue.len() && (#[trigger] queue[k]).0 == u;
                            assert(now_queue[k].0 == u);
                        }
                    }
                    lemma_count_bound(next, seen_at(trail, now_seen));
                }
                let literal_level = self.data_provider.level(literal.variable());
                if literal_level == self.current_level {
                    proof {
                        let q = choose|q: int| 0 <= q < next && (#[trigger] trail[q]).var() == v;
                        assert forall|r: int| 0 <= r < next && r != q implies #[trigger] seen_at(
                            trail,
                            seen,
                        )(r) == seen_at(trail, now_seen)(r) by {}
                        lemma_count_flip(next, seen_at(trail, seen), seen_at(trail, now_seen), q);
                    }
                    self.unresolved_on_current_level += 1;
                } else {
                    proof {
                        assert forall|r: int| 0 <= r < next implies #[trigger] seen_at(trail, seen)(r)
                            == seen_at(trail, now_seen)(r) by {}
                        lemma_count_ext(next, seen_at(trail, seen), seen_at(trail, now_seen));
                    }
                    if literal_level != 0 {
                        self.recorded.push(literal);
                        proof {
                            let now_recorded = self.recorded@;
                            assert forall|u: int|
                                0 <= u < n && #[trigger] now_seen[u] && 0 < provider.level_of(u)
                                    < level implies is_recorded(now_recorded, u) by {
                                if u == v {
                                    assert(now_recorded[recorded.len() as int].var() == v);
                                } else {
                                    let k = choose|k: int|
                                        0 <= k < recorded.len() && (#[trigger] recorded[k]).var() == u;
                                    assert(now_recorded[k].var() == u);
                                }
                            }
                        }
                    }
                }
                proof {
                    let now_recorded = self.recorded@;
                    assert forall|k: int| 0 <= k < now_queue.len() implies (#[trigger] now_queue[k]).0
                        < n by {}
                    assert forall|u: int|
                        0 <= u < n && #[trigger] now_seen[u] && 0 < provider.level_of(u)
                            < level implies is_recorded(now_recorded, u) by {}
                    assert forall|k: int| 0 <= k < now_recorded.len() implies {
                        &&& (#[trigger] now_recorded[k]).var() < n
                        &&& now_seen[now_recorded[k].var()]
                        &&& is_false(provider, now_recorded[k])
                        &&& 0 < provider.level_of(now_recorded[k].var()) < level
                    } by {}
                    assert forall|j: int, k: int| 0 <= j < k < now_recorded.len() implies (
                    #[trigger] now_recorded[j]).var() != (#[trigger] now_recorded[k]).var() by {}
                }
            } else {
                assert(self.inner.seen@ =~= seen);
            }
            position += 1;
        }
    }

    /// Whether the variable has been seen.
    pub fn seen(&self, variable: Variable) -> (seen: bool)
        requires
            variable.0 < self.inner.seen@.len(),
        ensures
            seen == old(self.inner).seen@[variable.0 as int],
    {
        self.inner.seen[variable.index()]
    }

    /// Ends the analysis: takes every mark back and gives the recorded
    /// literals as a clause.
    pub fn finish(self) -> (clause: Clause)
        requires
            old(self.inner).queued(),
        ensures
            clause@ == self.recorded@,
            final(self.inner).idle(),
            final(self.inner).num_variables() == old(self.inner).num_variables(),
    {
        self.inner.clear();
        Clause::new(self.recorded)
    }
}

impl ConflictAnalyzer {
    /// Derives the clause of the first unique implication point.
    ///
    /// `conflicting_clause` is a clause whose literals are all false, and
    /// `literals` are the literals of the current level in the order in
    /// which they got their values. The clause that is returned holds under
    /// every total assignment that respects the conflicting clause and the
    /// clauses that forced the literals of the current level. Its last
    /// literal is the only one of the current level, the others are of
    /// earlier levels but level zero, and all of them are false.
    pub fn analyze<P: ConflictDataProvider>(
        &mut self,
        data_provider: &P,
        current_level: usize,
        conflicting_clause: &Clause,
        literals: &[Literal],
    ) -> (learned: Clause)
        requires
            old(self).idle(),
            trail_ok(
                data_provider,
                old(self).num_variables() as int,
                current_level as nat,
                literals@,
            ),
            explained_but(
                data_provider,
                old(self).num_variables() as int,
                current_level as nat,
                literals@,
                literals@.len() as int,
                None,
                conflicting_clause@,
            ),
            exists|i: int|
                0 <= i < conflicting_clause@.len() && data_provider.level_of(
                    (#[trigger] conflicting_clause@[i]).var(),
                ) == current_level,
        ensures
            final(self).idle(),
            final(self).num_variables() == old(self).num_variables(),
            learned@.len() > 0,
            data_provider.level_of(learned@.last().var()) == current_level,
            forall|k: int|
                0 <= k < learned@.len() - 1 ==> 0 < data_provider.level_of(
                    (#[trigger] learned@[k]).var(),
                ) < current_level,
            forall|k: int|
                0 <= k < learned@.len() ==> (#[trigger] learned@[k]).var() < old(
                    self,
                ).num_variables() && is_false(data_provider, learned@[k]),
            forall|j: int, k: int|
                0 <= j < k < learned@.len() ==> (#[trigger] learned@[j]).var() != (
                #[trigger] learned@[k]).var(),
            forall|total: Seq<bool>| #[trigger]
                respects(
                    data_provider,
                    old(self).num_variables() as int,
                    literals@,
                    conflicting_clause@,
                    total,
                ) ==> clause_holds(learned@, total),
            exists|p: int|
                {
                    &&& 0 <= p < literals@.len()
                    &&& #[trigger] is_implication_point(
                        data_provider,
                        old(self).num_variables() as int,
                        literals@,
                        conflicting_clause@,
                        p,
                    )
                    &&& forall|q: int|
                        p < q < literals@.len() ==> !#[trigger] is_implication_point(
                            data_provider,
                            old(self).num_variables() as int,
                            literals@,
                            conflicting_clause@,
                            q,
                        )
                    &&& is_clause_of_point(
                        data_provider,
                        old(self).num_variables() as int,
                        current_level as nat,
                        literals@,
                        conflicting_clause@,
                        p,
                        learned@,
                    )
                },
    {
        let ghost n = self.seen@.len() as int;
        let ghost level = current_level as nat;
        let ghost trail = literals@;
        let ghost conflict = conflicting_clause@;
        let mut next = literals.len();
        let mut session = Session::new(self, data_provider, current_level);
        session.trail = Ghost(trail);
        session.next = Ghost(next as int);
        proof {
            lemma_count_zero(next as int, seen_at(trail, session.inner.seen@));
            assert(session.inner.seen@ =~= Seq::new(n as nat, |v: int| false));
        }
        session.add_clause(conflicting_clause);
        proof {
            lemma_meaning_start(
                data_provider,
                level,
                trail,
                conflict,
                session.inner.seen@,
                session.inner.seen_queue@,
                session.recorded@,
                session.unresolved_on_current_level as int,
            );
            let i = choose|i: int|
                0 <= i < conflict.len() && data_provider.level_of((#[trigger] conflict[i]).var())
                    == current_level;
            let q = choose|q: int| 0 <= q < trail.len() && (#[trigger] trail[q]).var() == conflict[i].var();
            assert(seen_at(trail, session.inner.seen@)(q));
            lemma_count_zero(next as int, seen_at(trail, session.inner.seen@));
        }
        while next > 0
            invariant
                next <= literals@.len(),
                trail == literals@,
                conflict == conflicting_clause@,
                level == current_level,
                n == old(self).num_variables(),
                after_borrow(*self) == *final(session.inner),
                session.consistent(),
                session.inner.seen@.len() == n,
                session.data_provider == data_provider,
                session.current_level == current_level,
                session.trail@ == trail,
                session.next@ == next,
                session.unresolved_on_current_level > 0,
                session.inner.seen@ == marks_at(data_provider, n, trail, conflict, next as int),
                forall|q: int|
                    next <= q < trail.len() ==> !#[trigger] is_implication_point(
                        data_provider,
                        n,
                        trail,
                        conflict,
                        q,
                    ),
                meaning(
                    data_provider,
                    trail,
                    conflict,
                    session.inner.seen@,
                    session.recorded@,
                    next as int,
                ),
            decreases next,
        {
            next -= 1;
            let literal = literals[next];
            let variable = literal.variable();
            let ghost seen = session.inner.seen@;
            let ghost recorded = session.recorded@;
            if session.seen(variable) {
                session.unresolved_on_current_level -= 1;
                if session.unresolved_on_current_level == 0 {
                    // The first unique implication point is reached.
                    let uip = Literal::new(variable, !data_provider.value(variable));
                    session.recorded.push(uip);
                    session.next = Ghost(next as int);
                    proof {
                        lemma_meaning_end(
                            data_provider,
                            level,
                            trail,
                            conflict,
                            seen,
                            recorded,
                            next as int,
                            session.recorded@,
                        );
                        lemma_count_zero(next as int, seen_at(trail, seen));
                        let learned = session.recorded@;
                        assert forall|k: int| 0 <= k < learned.len() implies (#[trigger] learned[k]).var()
                            < n && is_false(data_provider, learned[k]) && (k < learned.len() - 1 ==> 0
                            < data_provider.level_of(learned[k].var()) < current_level) by {}
                        assert forall|j: int, k: int| 0 <= j < k < learned.len() implies (
                        #[trigger] learned[j]).var() != (#[trigger] learned[k]).var() by {}
                        assert(learned.drop_last() =~= recorded);
                        assert(is_implication_point(data_provider, n, trail, conflict, next as int));
                        assert(is_clause_of_point(
                            data_provider,
                            n,
                            level,
                            trail,
                            conflict,
                            next as int,
                            learned,
                        )) by {
                            assert forall|v: int| 0 <= v < n implies (is_recorded(recorded, v)
                                <==> #[trigger] seen[v] && 0 < data_provider.level_of(v) < level) by {}
                        }
                    }
                    return session.finish();
                }
                // Not the implication point: its forcing clause takes its
                // place.
                session.next = Ghost(next as int);
                proof {
                    if next == 0 {
                        lemma_count_bound(0, seen_at(trail, seen));
                    }
                }
                let antecedents = match data_provider.antecedents(variable) {
                    Some(clause) => clause,
                    None => unreached(),
                };
                proof {
                    assert forall|i: int| 0 <= i < antecedents@.len() implies (
                    #[trigger] antecedents@[i]).var() < n && (seen[antecedents@[i].var()] || explains(
                        data_provider,
                        n,
                        level,
                        trail,
                        next as int,
                        antecedents@[i],
                    )) by {}
                }
                session.add_clause(antecedents);
                proof {
                    lemma_meaning_step(
                        data_provider,
                        level,
                        trail,
                        conflict,
                        seen,
                        recorded,
                        session.inner.seen@,
                        session.inner.seen_queue@,
                        session.recorded@,
                        session.unresolved_on_current_level as int,
                        next as int,
                    );
                }
            } else {
                session.next = Ghost(next as int);
                proof {
                    lemma_count_ext(next as int, seen_at(trail, seen), seen_at(trail, seen));
                    assert forall|total: Seq<bool>| #[trigger]
                        respects(data_provider, n, trail, conflict, total) implies some_recorded_holds(
                        recorded,
                        total,
                    ) || some_pending_fails(trail, seen, next as int, total) by {}
                }
            }
        }
        proof {
            lemma_count_bound(0, seen_at(trail, session.inner.seen@));
        }
        unreached()
    }
}

} // verus!
