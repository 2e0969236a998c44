//! The VSIDS branching heuristic: a score for each variable that grows when
//! the variable stands in a learned clause, and an ordered set of the
//! variables without a value from which the one with the greatest score is
//! taken.
//!
//! Scores are fixed-point numbers in which `INITIAL_RATE` stands for one.
//! With every conflict the amount by which a score grows is itself made
//! larger, by one part in nineteen, so that earlier growth counts for less;
//! when a number reaches `REBALANCE_THRESHOLD` all are scaled down.

use crate::formula::{Clause, Literal, Variable};
use crate::solver::cdcl::tracker::Tracker;
use std::collections::BTreeSet;
use vstd::prelude::*;

verus! {

/// The amount that stands for one.
pub const INITIAL_RATE: u64 = 1048576;

/// The least amount by which a score grows.
pub const MINIMUM_RATE: u64 = 1024;

/// The bound that scores and the rate stay below.
pub const REBALANCE_THRESHOLD: u64 = 1152921504606846976;

/// What scores and the rate are divided by when one reaches the threshold.
pub const REBALANCE_DIVISOR: u64 = 1099511627776;

/// The rate grows by one part in this many with every conflict.
pub const DECAY_PARTS: u64 = 19;

/// The greatest number of occurrences that an initial score tells apart.
pub const OCCURRENCE_CAP: usize = 1048576;

/// An entry of the ordered set: the score of a variable, its tie-breaking
/// nonce, and the index of the variable. Entries are ordered by score, then
/// by nonce, then by index.
pub type Key = (u64, u64, u32);

/// The score of a variable and its tie-breaking nonce.
#[derive(Clone, Copy)]
pub struct VecEntry {
    pub score: u64,
    pub nonce: u64,
}

/// A variable with its score and its nonce.
#[derive(Clone, Copy)]
pub struct SetEntry {
    pub variable: Variable,
    pub score: u64,
    pub nonce: u64,
}

/// A number from `rand::random`. Nothing is claimed of it, and two calls
/// may give different numbers: it is there to break ties between equal
/// scores.
#[verifier::external_body]
fn random_nonce() -> (nonce: u64) {
    rand::random()
}

/// Whether the first entry is not after the second in the order of the set.
pub open spec fn key_le(a: Key, b: Key) -> bool {
    a.0 < b.0 || (a.0 == b.0 && (a.1 < b.1 || (a.1 == b.1 && a.2 <= b.2)))
}

/// `BTreeSet::last`: the greatest element of the set in the order of its
/// elements, which for tuples of integers is the order by the first
/// component, then the second, then the third; `None` for the empty set.
#[verifier::external_body]
fn last_key(set: &BTreeSet<Key>) -> (last: Option<Key>)
    ensures
        match last {
            Some(key) => set@.contains(key) && forall|other: Key|
                set@.contains(other) ==> key_le(other, key),
            None => forall|other: Key| !set@.contains(other),
        },
{
    match set.last() {
        Some(key) => Some(*key),
        None => None,
    }
}

/// Puts an entry into an ordered set.
fn set_insert(set: &mut BTreeSet<Key>, key: Key)
    ensures
        final(set)@ == old(set)@.insert(key),
{
    broadcast use vstd::laws_cmp::group_laws_cmp;

    set.insert(key);
}

/// Takes an entry out of an ordered set and tells whether it was there.
fn set_remove(set: &mut BTreeSet<Key>, key: Key) -> (present: bool)
    ensures
        final(set)@ == old(set)@.remove(key),
        present == old(set)@.contains(key),
{
    broadcast use vstd::laws_cmp::group_laws_cmp;

    set.remove(&key)
}

impl VecEntry {
    /// An entry with the given score and a fresh nonce.
    pub fn new(score: u64) -> (entry: VecEntry)
        ensures
            entry.score == score,
    {
        VecEntry { score, nonce: random_nonce() }
    }

    /// Raises the score by `delta`, takes a fresh nonce, and returns the new
    /// score.
    pub fn update(&mut self, delta: u64) -> (score: u64)
        requires
            old(self).score + delta <= u64::MAX,
        ensures
            final(self).score == old(self).score + delta,
            score == final(self).score,
    {
        self.score += delta;
        self.nonce = random_nonce();
        self.score
    }
}

impl SetEntry {
    pub fn from_vec_entry(variable: Variable, vec_entry: VecEntry) -> (entry: SetEntry)
        ensures
            entry == (SetEntry { variable, score: vec_entry.score, nonce: vec_entry.nonce }),
    {
        SetEntry { variable, score: vec_entry.score, nonce: vec_entry.nonce }
    }

    /// The entry as it stands in the ordered set.
    pub fn key(&self) -> (key: Key)
        ensures
            key == (self.score, self.nonce, self.variable.0),
    {
        (self.score, self.nonce, self.variable.0)
    }
}

/// The rate and the scores of the variables.
pub struct Scores {
    pub rate: int,
    pub scores: Seq<int>,
}

impl Scores {
    /// The scores after all have been scaled down.
    pub open spec fn rebalanced(self) -> Scores {
        Scores {
            rate: if self.rate / (REBALANCE_DIVISOR as int) < MINIMUM_RATE {
                MINIMUM_RATE as int
            } else {
                self.rate / (REBALANCE_DIVISOR as int)
            },
            scores: Seq::new(self.scores.len(), |v: int| self.scores[v] / (REBALANCE_DIVISOR as int)),
        }
    }

    /// The scores after the score of a variable has grown by the rate.
    pub open spec fn bumped(self, variable: int) -> Scores {
        let raised = Scores {
            scores: self.scores.update(variable, self.scores[variable] + self.rate),
            ..self
        };
        if raised.scores[variable] >= REBALANCE_THRESHOLD {
            raised.rebalanced()
        } else {
            raised
        }
    }

    /// The scores after a conflict: the rate has grown by one part in
    /// `DECAY_PARTS`.
    pub open spec fn decayed(self) -> Scores {
        let raised = Scores { rate: self.rate + self.rate / (DECAY_PARTS as int), ..self };
        if raised.rate >= REBALANCE_THRESHOLD {
            raised.rebalanced()
        } else {
            raised
        }
    }

    /// The scores after the variables of the first `upto` literals of a
    /// clause have been bumped, in order.
    pub open spec fn learned(self, clause: Seq<Literal>, upto: int) -> Scores
        decreases upto,
    {
        if upto <= 0 {
            self
        } else {
            self.learned(clause, upto - 1).bumped(clause[upto - 1].var())
        }
    }

    /// The rate and the scores are in the range that the arithmetic keeps
    /// them in.
    pub open spec fn bounded(self) -> bool {
        &&& MINIMUM_RATE <= self.rate < REBALANCE_THRESHOLD
        &&& forall|v: int| 0 <= v < self.scores.len() ==> 0 <= #[trigger] self.scores[v] < REBALANCE_THRESHOLD
    }
}

/// The VSIDS heuristic.
pub struct VsidsScoring {
    current_rate: u64,
    scores: Vec<VecEntry>,
    btree: BTreeSet<Key>,
}

impl VsidsScoring {
    /// The number of variables.
    pub closed spec fn num_variables(&self) -> nat {
        self.scores@.len()
    }

    /// The rate and the scores.
    pub closed spec fn model(&self) -> Scores {
        Scores {
            rate: self.current_rate as int,
            scores: Seq::new(self.scores@.len(), |v: int| self.scores@[v].score as int),
        }
    }

    /// The entry of a variable as it stands in the ordered set when the
    /// variable is in it.
    pub closed spec fn key_of(&self, variable: int) -> Key {
        (self.scores@[variable].score, self.scores@[variable].nonce, variable as u32)
    }

    /// Whether the variable is in the ordered set.
    pub closed spec fn present(&self, variable: int) -> bool {
        self.btree@.contains(self.key_of(variable))
    }

    /// The ordered set holds entries of variables only, each with the score
    /// and the nonce that the variable has.
    pub closed spec fn sorted(&self) -> bool {
        &&& self.scores@.len() <= u32::MAX + 1
        &&& forall|key: Key| #[trigger]
            self.btree@.contains(key) ==> key.2 < self.scores@.len() && key == self.key_of(
                key.2 as int,
            )
    }

    /// The heuristic is consistent.
    pub open spec fn wf(&self) -> bool {
        &&& self.sorted()
        &&& self.model().bounded()
        &&& self.model().scores.len() == self.num_variables()
    }

    /// The entry of a variable.
    fn set_entry(&self, variable: Variable) -> (entry: SetEntry)
        requires
            variable.0 < self.scores@.len(),
        ensures
            entry.variable == variable,
            (entry.score, entry.nonce, entry.variable.0) == self.key_of(variable.0 as int),
    {
        SetEntry::from_vec_entry(variable, self.scores[variable.index()])
    }

    /// Puts a variable into the ordered set.
    pub fn insert(&mut self, variable: Variable)
        requires
            old(self).wf(),
            variable.0 < old(self).num_variables(),
        ensures
            final(self).wf(),
            final(self).num_variables() == old(self).num_variables(),
            final(self).model() == old(self).model(),
            forall|v: int|
                0 <= v < old(self).num_variables() ==> #[trigger] final(self).present(v) == (old(
                    self,
                ).present(v) || v == variable.0),
    {
        let key = self.set_entry(variable).key();
        set_insert(&mut self.btree, key);
    }

    /// Takes a variable out of the ordered set.
    pub fn remove(&mut self, variable: Variable)
        requires
            old(self).wf(),
            variable.0 < old(self).num_variables(),
        ensures
            final(self).wf(),
            final(self).num_variables() == old(self).num_variables(),
            final(self).model() == old(self).model(),
            forall|v: int|
                0 <= v < old(self).num_variables() ==> #[trigger] final(self).present(v) == (old(
                    self,
                ).present(v) && v != variable.0),
    {
        let key = self.set_entry(variable).key();
        set_remove(&mut self.btree, key);
    }

    /// The variable with the greatest score in the ordered set; among equal
    /// scores the one with the greatest nonce.
    pub fn top(&mut self) -> (variable: Variable)
        requires
            old(self).wf(),
            exists|v: int| 0 <= v < old(self).num_variables() && old(self).present(v),
        ensures
            *final(self) == *old(self),
            variable.0 < old(self).num_variables(),
            old(self).present(variable.0 as int),
            forall|v: int|
                0 <= v < old(self).num_variables() && old(self).present(v) ==> key_le(
                    #[trigger] old(self).key_of(v),
                    old(self).key_of(variable.0 as int),
                ),
    {
        match last_key(&self.btree) {
            Some(key) => Variable(key.2),
            None => {
                proof {
                    let v = choose|v: int| 0 <= v < self.num_variables() && self.present(v);
                }
                vstd::pervasive::unreached()
            },
        }
    }

    /// Scales the rate and every score down.
    fn rebalance(&mut self)
        requires
            old(self).sorted(),
            old(self).model().scores.len() == old(self).num_variables(),
            0 <= old(self).model().rate,
        ensures
            final(self).sorted(),
            final(self).num_variables() == old(self).num_variables(),
            final(self).model() == old(self).model().rebalanced(),
            forall|v: int|
                0 <= v < old(self).num_variables() ==> #[trigger] final(self).present(v) == old(
                    self,
                ).present(v),
    {
        let ghost before = self.model();
        self.current_rate = self.current_rate / REBALANCE_DIVISOR;
        if self.current_rate < MINIMUM_RATE {
            self.current_rate = MINIMUM_RATE;
        }
        let mut index: usize = 0;
        while index < self.scores.len()
            invariant
                index <= self.scores@.len(),
                self.scores@.len() == old(self).scores@.len(),
                self.sorted(),
                self.current_rate == before.rebalanced().rate,
                before == old(self).model(),
                forall|v: int|
                    0 <= v < index ==> (#[trigger] self.scores@[v]).score == before.scores[v] / (
                    REBALANCE_DIVISOR as int),
                forall|v: int|
                    index <= v < self.scores@.len() ==> (#[trigger] self.scores@[v]).score
                        == before.scores[v],
                forall|v: int|
                    0 <= v < self.scores@.len() ==> #[trigger] self.present(v) == old(self).present(
                        v,
                    ),
            decreases self.scores@.len() - index,
        {
            let ghost was = *self;
            let variable = Variable(index as u32);
            let key = self.set_entry(variable).key();
            let present = set_remove(&mut self.btree, key);
            self.scores[index].score = self.scores[index].score / REBALANCE_DIVISOR;
            if present {
                let key = self.set_entry(variable).key();
                set_insert(&mut self.btree, key);
            }
            proof {
                assert forall|other: Key| #[trigger] self.btree@.contains(other) implies other.2
                    < self.scores@.len() && other == self.key_of(other.2 as int) by {}
                assert forall|v: int| 0 <= v < self.scores@.len() implies #[trigger] self.present(v)
                    == old(self).present(v) by {
                    assert(was.present(v) == old(self).present(v));
                }
            }
            index += 1;
        }
        proof {
            assert(self.model().scores =~= before.rebalanced().scores);
        }
    }

    /// Raises the score of a variable by the rate.
    fn bump_score(&mut self, variable: Variable)
        requires
            old(self).wf(),
            variable.0 < old(self).num_variables(),
        ensures
            final(self).wf(),
            final(self).num_variables() == old(self).num_variables(),
            final(self).model() == old(self).model().bumped(variable.0 as int),
            forall|v: int|
                0 <= v < old(self).num_variables() ==> #[trigger] final(self).present(v) == old(
                    self,
                ).present(v),
    {
        let ghost before = self.model();
        let ghost was = *self;
        let key = self.set_entry(variable).key();
        let present = set_remove(&mut self.btree, key);

        let new_score = self.scores[variable.index()].update(self.current_rate);

        if present {
            let key = self.set_entry(variable).key();
            set_insert(&mut self.btree, key);
        }
        proof {
            assert forall|other: Key| #[trigger] self.btree@.contains(other) implies other.2
                < self.scores@.len() && other == self.key_of(other.2 as int) by {}
            assert forall|v: int| 0 <= v < self.scores@.len() implies #[trigger] self.present(v)
                == old(self).present(v) by {}
            assert(self.model().scores =~= before.scores.update(
                variable.0 as int,
                before.scores[variable.0 as int] + before.rate,
            ));
        }

        if new_score >= REBALANCE_THRESHOLD {
            self.rebalance();
        }
        proof {
            Self::lemma_rebalanced_bounded(
                Scores {
                    scores: before.scores.update(
                        variable.0 as int,
                        before.scores[variable.0 as int] + before.rate,
                    ),
                    ..before
                },
            );
        }
    }

    /// Scaling down brings the rate and the scores into range from twice the
    /// range.
    proof fn lemma_rebalanced_bounded(scores: Scores)
        requires
            0 <= scores.rate < 2 * REBALANCE_THRESHOLD,
            forall|v: int|
                0 <= v < scores.scores.len() ==> 0 <= #[trigger] scores.scores[v] < 2
                    * REBALANCE_THRESHOLD,
        ensures
            scores.rebalanced().bounded(),
            scores.rebalanced().scores.len() == scores.scores.len(),
    {
    }

    /// Makes the rate grow, so that later bumps count for more.
    pub fn decay(&mut self)
        requires
            old(self).wf(),
        ensures
            final(self).wf(),
            final(self).num_variables() == old(self).num_variables(),
            final(self).model() == old(self).model().decayed(),
            forall|v: int|
                0 <= v < old(self).num_variables() ==> #[trigger] final(self).present(v) == old(
                    self,
                ).present(v),
    {
        let ghost before = self.model();
        self.current_rate = self.current_rate + self.current_rate / DECAY_PARTS;
        proof {
            assert forall|v: int| 0 <= v < self.scores@.len() implies #[trigger] self.present(v)
                == old(self).present(v) by {}
        }
        if self.current_rate >= REBALANCE_THRESHOLD {
            self.rebalance();
            proof {
                Self::lemma_rebalanced_bounded(
                    Scores { rate: before.rate + before.rate / (DECAY_PARTS as int), ..before },
                );
            }
        }
    }

    /// Bumps the variable of every literal of a learned clause.
    pub fn learn_clause(&mut self, clause: &Clause)
        requires
            old(self).wf(),
            forall|i: int|
                0 <= i < clause@.len() ==> (#[trigger] clause@[i]).var() < old(self).num_variables(),
        ensures
            final(self).wf(),
            final(self).num_variables() == old(self).num_variables(),
            final(self).model() == old(self).model().learned(clause@, clause@.len() as int),
            forall|v: int|
                0 <= v < old(self).num_variables() ==> #[trigger] final(self).present(v) == old(
                    self,
                ).present(v),
    {
        let mut position: usize = 0;
        while position < clause.num_literals()
            invariant
                position <= clause@.len(),
                self.wf(),
                self.num_variables() == old(self).num_variables(),
                self.model() == old(self).model().learned(clause@, position as int),
                forall|i: int|
                    0 <= i < clause@.len() ==> (#[trigger] clause@[i]).var() < self.num_variables(),
                forall|v: int|
                    0 <= v < old(self).num_variables() ==> #[trigger] self.present(v) == old(
                        self,
                    ).present(v),
            decreases clause@.len() - position,
        {
            let literal = clause.literal(position);
            self.bump_score(literal.variable());
            position += 1;
        }
    }

    /// The heuristic for the variables of a tracker: every variable is in
    /// the ordered set, with a score that stands for the number of its
    /// occurrences in the clauses.
    pub fn new(tracker: &Tracker) -> (scoring: VsidsScoring)
        requires
            tracker.wf(),
        ensures
            scoring.wf(),
            scoring.num_variables() == tracker.state().num_variables,
            scoring.model().rate == INITIAL_RATE,
            forall|v: int| 0 <= v < scoring.num_variables() ==> #[trigger] scoring.present(v),
            forall|v: int|
                0 <= v < scoring.num_variables() ==> #[trigger] scoring.model().scores[v]
                    == INITIAL_RATE * initial_occurrences(tracker, v),
    {
        let num_variables = tracker.num_variables();
        let mut scoring = VsidsScoring {
            current_rate: INITIAL_RATE,
            scores: Vec::new(),
            btree: BTreeSet::new(),
        };
        let mut index: usize = 0;
        while index < num_variables
            invariant
                index <= num_variables,
                num_variables == tracker.state().num_variables,
                num_variables <= u32::MAX + 1,
                tracker.wf(),
                scoring.scores@.len() == index,
                scoring.current_rate == INITIAL_RATE,
                scoring.sorted(),
                forall|v: int| 0 <= v < index ==> #[trigger] scoring.present(v),
                forall|v: int|
                    0 <= v < index ==> (#[trigger] scoring.scores@[v]).score == INITIAL_RATE
                        * initial_occurrences(tracker, v),
            decreases num_variables - index,
        {
            let ghost was = scoring;
            let variable = Variable(index as u32);
            let occurrences = tracker.variable_occurrence(variable);
            let capped: u64 = if occurrences < OCCURRENCE_CAP {
                occurrences as u64
            } else {
                OCCURRENCE_CAP as u64
            };
            let vec_entry = VecEntry::new(INITIAL_RATE * capped);
            scoring.scores.push(vec_entry);
            set_insert(&mut scoring.btree, SetEntry::from_vec_entry(variable, vec_entry).key());
            proof {
                assert forall|other: Key| #[trigger] scoring.btree@.contains(other) implies other.2
                    < scoring.scores@.len() && other == scoring.key_of(other.2 as int) by {}
                assert forall|v: int| 0 <= v < index + 1 implies #[trigger] scoring.present(v) by {
                    if v < index {
                        assert(was.present(v));
                    }
                }
            }
            index += 1;
        }
        scoring
    }
}

/// The number of occurrences of a variable in the clauses of a tracker, as
/// far as an initial score tells numbers apart.
pub open spec fn initial_occurrences(tracker: &Tracker, variable: int) -> int {
    let positive = tracker.state().links.row(
        Literal { variable: Variable(variable as u32), positive: true },
    ).len();
    let negative = tracker.state().links.row(
        Literal { variable: Variable(variable as u32), positive: false },
    ).len();
    if positive + negative < OCCURRENCE_CAP {
        (positive + negative) as int
    } else {
        OCCURRENCE_CAP as int
    }
}

} // verus!
