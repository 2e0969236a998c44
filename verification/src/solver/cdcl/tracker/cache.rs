//! The clauses of a tracker, sorted by status.

use crate::solver::cdcl::tracker::clause_stat::{ClauseStatus, ClauseStatusChange};
use crate::solver::cdcl::tracker::store::ClauseIdx;
use std::collections::BTreeSet;
use vstd::std_specs::cmp::OrdSpec;
use vstd::prelude::*;

verus! {

/// A set of clauses, each named by its index.
pub type ClauseSet = BTreeSet<usize>;

/// Whether the first of two values comes before the second in the order of
/// their type.
pub open spec fn comes_before<K: Ord>(first: K, second: K) -> bool {
    first.cmp_spec(&second) is Less
}

/// The first clause of a set, which is the one with the least index; `None`
/// for the empty set.
pub fn first_clause(set: &ClauseSet) -> (first: Option<usize>)
    ensures
        match first {
            Some(idx) => set@.contains(idx) && forall|other: usize|
                set@.contains(other) ==> idx <= other,
            None => forall|idx: usize| !set@.contains(idx),
        },
{
    broadcast use vstd::laws_cmp::group_laws_cmp;

    for idx in iter: set.iter()
        invariant
            iter.index() == 0,
            iter.seq().unref().to_set() == set@,
            vstd::std_specs::btree::increasing_seq(iter.seq()),
    {
        proof {
            let all = iter.seq();
            assert(all.unref()[0] == *idx);
            assert(all.unref().to_set().contains(*idx));
            assert forall|other: usize| set@.contains(other) implies *idx <= other by {
                assert(all.unref().to_set().contains(other));
                let j = choose|j: int| 0 <= j < all.unref().len() && all.unref()[j] == other;
                if j > 0 {
                    assert(comes_before(all[0], all[j]));
                }
            }
        }
        return Some(*idx);
    }
    None
}

/// For each status, the set of the clauses that have it.
pub struct ClauseStateCache {
    falsified: ClauseSet,
    satisfied: ClauseSet,
    unit: ClauseSet,
    unresolved: ClauseSet,
}

impl ClauseStateCache {
    /// The clauses filed under a status.
    pub closed spec fn bucket(&self, status: ClauseStatus) -> Set<usize> {
        match status {
            ClauseStatus::Falsified => self.falsified@,
            ClauseStatus::Satisfied => self.satisfied@,
            ClauseStatus::Unit => self.unit@,
            ClauseStatus::Unresolved => self.unresolved@,
        }
    }

    /// The cache without clauses.
    pub fn new() -> (cache: ClauseStateCache)
        ensures
            forall|status: ClauseStatus| #[trigger] cache.bucket(status) == Set::<usize>::empty(),
    {
        ClauseStateCache {
            falsified: BTreeSet::new(),
            satisfied: BTreeSet::new(),
            unit: BTreeSet::new(),
            unresolved: BTreeSet::new(),
        }
    }

    /// The set of the clauses filed under a status.
    pub fn get(&self, status: ClauseStatus) -> (set: &ClauseSet)
        ensures
            set@ == self.bucket(status),
            set.len() == set@.len(),
    {
        broadcast use vstd::laws_cmp::group_laws_cmp;

        match status {
            ClauseStatus::Falsified => &self.falsified,
            ClauseStatus::Satisfied => &self.satisfied,
            ClauseStatus::Unit => &self.unit,
            ClauseStatus::Unresolved => &self.unresolved,
        }
    }

    /// Files a clause under a status.
    pub fn insert(&mut self, status: ClauseStatus, idx: ClauseIdx)
        ensures
            final(self).bucket(status) == old(self).bucket(status).insert(idx.0),
            forall|other: ClauseStatus|
                other != status ==> #[trigger] final(self).bucket(other) == old(self).bucket(other),
    {
        broadcast use vstd::laws_cmp::group_laws_cmp;

        match status {
            ClauseStatus::Falsified => {
                self.falsified.insert(idx.0);
            },
            ClauseStatus::Satisfied => {
                self.satisfied.insert(idx.0);
            },
            ClauseStatus::Unit => {
                self.unit.insert(idx.0);
            },
            ClauseStatus::Unresolved => {
                self.unresolved.insert(idx.0);
            },
        }
    }

    /// Takes a clause out of the set of a status.
    fn remove(&mut self, status: ClauseStatus, idx: ClauseIdx)
        ensures
            final(self).bucket(status) == old(self).bucket(status).remove(idx.0),
            forall|other: ClauseStatus|
                other != status ==> #[trigger] final(self).bucket(other) == old(self).bucket(other),
    {
        broadcast use vstd::laws_cmp::group_laws_cmp;

        match status {
            ClauseStatus::Falsified => {
                self.falsified.remove(&idx.0);
            },
            ClauseStatus::Satisfied => {
                self.satisfied.remove(&idx.0);
            },
            ClauseStatus::Unit => {
                self.unit.remove(&idx.0);
            },
            ClauseStatus::Unresolved => {
                self.unresolved.remove(&idx.0);
            },
        }
    }

    /// Moves a clause whose status has changed from the set of the old
    /// status to the set of the new one.
    pub fn handle_change(&mut self, change: ClauseStatusChange, idx: ClauseIdx)
        requires
            change.old != change.new ==> old(self).bucket(change.old).contains(idx.0) && !old(
                self,
            ).bucket(change.new).contains(idx.0),
        ensures
            change.old == change.new ==> forall|status: ClauseStatus| #[trigger]
                final(self).bucket(status) == old(self).bucket(status),
            change.old != change.new ==> {
                &&& final(self).bucket(change.old) == old(self).bucket(change.old).remove(idx.0)
                &&& final(self).bucket(change.new) == old(self).bucket(change.new).insert(idx.0)
                &&& forall|status: ClauseStatus|
                    status != change.old && status != change.new ==> #[trigger] final(self).bucket(
                        status,
                    ) == old(self).bucket(status)
            },
    {
        if change.old != change.new {
            self.remove(change.old, idx);
            self.insert(change.new, idx);
        }
    }
}

} // verus!
