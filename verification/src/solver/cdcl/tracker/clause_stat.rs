//! The counts of one clause and the status that follows from them.

use vstd::prelude::*;

verus! {

/// What a partial assignment makes of a clause.
#[derive(Clone, Copy, Debug, PartialEq, Eq, Structural)]
pub enum ClauseStatus {
    /// Every literal is false.
    Falsified,
    /// Some literal is true.
    Satisfied,
    /// No literal is true and all but one are false.
    Unit,
    /// None of the others.
    Unresolved,
}

/// The status of a clause with `total` literals of which `satisfied` are
/// true and `unsatisfied` are false.
pub open spec fn status_of(total: int, satisfied: int, unsatisfied: int) -> ClauseStatus {
    if unsatisfied == total {
        ClauseStatus::Falsified
    } else if satisfied > 0 {
        ClauseStatus::Satisfied
    } else if unsatisfied + 1 == total {
        ClauseStatus::Unit
    } else {
        ClauseStatus::Unresolved
    }
}

impl ClauseStatus {
    pub fn from_count(total: usize, satisfied: usize, unsatisfied: usize) -> (status: ClauseStatus)
        ensures
            status == status_of(total as int, satisfied as int, unsatisfied as int),
    {
        if unsatisfied == total {
            ClauseStatus::Falsified
        } else if satisfied > 0 {
            ClauseStatus::Satisfied
        } else if total > 0 && unsatisfied == total - 1 {
            ClauseStatus::Unit
        } else {
            ClauseStatus::Unresolved
        }
    }
}

/// The counts of a clause, with the status that they give.
#[derive(Clone, Copy, Debug)]
pub struct ClauseStat {
    /// The number of literals of the clause.
    pub total: usize,
    /// The number of literals that are true.
    pub satisfied: usize,
    /// The number of literals that are false.
    pub unsatisfied: usize,
    /// The status that the counts give.
    pub status: ClauseStatus,
}

/// The status of a clause before and after a change of its counts.
#[derive(Clone, Copy)]
pub struct ClauseStatusChange {
    pub old: ClauseStatus,
    pub new: ClauseStatus,
}

impl ClauseStat {
    /// The counts fit the clause and the status is the one that they give.
    pub open spec fn wf(&self) -> bool {
        &&& self.satisfied + self.unsatisfied <= self.total
        &&& self.status == status_of(
            self.total as int,
            self.satisfied as int,
            self.unsatisfied as int,
        )
    }

    /// The same clause with other counts.
    pub open spec fn with_counts(&self, satisfied: int, unsatisfied: int) -> ClauseStat {
        ClauseStat {
            total: self.total,
            satisfied: satisfied as usize,
            unsatisfied: unsatisfied as usize,
            status: status_of(self.total as int, satisfied, unsatisfied),
        }
    }

    pub fn new(total: usize, satisfied: usize, unsatisfied: usize) -> (stat: ClauseStat)
        requires
            satisfied + unsatisfied <= total,
        ensures
            stat.wf(),
            stat.total == total,
            stat.satisfied == satisfied,
            stat.unsatisfied == unsatisfied,
    {
        ClauseStat {
            total,
            satisfied,
            unsatisfied,
            status: ClauseStatus::from_count(total, satisfied, unsatisfied),
        }
    }

    pub fn status(&self) -> (status: ClauseStatus)
        ensures
            status == self.status,
    {
        self.status
    }

    /// Counts one more true literal.
    pub fn increment_satisfied(&mut self) -> (change: ClauseStatusChange)
        requires
            old(self).wf(),
            old(self).satisfied + old(self).unsatisfied < old(self).total,
        ensures
            *final(self) == old(self).with_counts(
                old(self).satisfied + 1,
                old(self).unsatisfied as int,
            ),
            final(self).wf(),
            change.old == old(self).status,
            change.new == final(self).status,
    {
        let old = self.status;
        self.satisfied += 1;
        self.status = ClauseStatus::from_count(self.total, self.satisfied, self.unsatisfied);
        ClauseStatusChange { old, new: self.status }
    }

    /// Counts one more false literal.
    pub fn increment_unsatisfied(&mut self) -> (change: ClauseStatusChange)
        requires
            old(self).wf(),
            old(self).satisfied + old(self).unsatisfied < old(self).total,
        ensures
            *final(self) == old(self).with_counts(
                old(self).satisfied as int,
                old(self).unsatisfied + 1,
            ),
            final(self).wf(),
            change.old == old(self).status,
            change.new == final(self).status,
    {
        let old = self.status;
        self.unsatisfied += 1;
        self.status = ClauseStatus::from_count(self.total, self.satisfied, self.unsatisfied);
        ClauseStatusChange { old, new: self.status }
    }

    /// Counts one true literal fewer.
    pub fn decrement_satisfied(&mut self) -> (change: ClauseStatusChange)
        requires
            old(self).wf(),
            old(self).satisfied > 0,
        ensures
            *final(self) == old(self).with_counts(
                old(self).satisfied - 1,
                old(self).unsatisfied as int,
            ),
            final(self).wf(),
            change.old == old(self).status,
            change.new == final(self).status,
    {
        let old = self.status;
        self.satisfied -= 1;
        self.status = ClauseStatus::from_count(self.total, self.satisfied, self.unsatisfied);
        ClauseStatusChange { old, new: self.status }
    }

    /// Counts one false literal fewer.
    pub fn decrement_unsatisfied(&mut self) -> (change: ClauseStatusChange)
        requires
            old(self).wf(),
            old(self).unsatisfied > 0,
        ensures
            *final(self) == old(self).with_counts(
                old(self).satisfied as int,
                old(self).unsatisfied - 1,
            ),
            final(self).wf(),
            change.old == old(self).status,
            change.new == final(self).status,
    {
        let old = self.status;
        self.unsatisfied -= 1;
        self.status = ClauseStatus::from_count(self.total, self.satisfied, self.unsatisfied);
        ClauseStatusChange { old, new: self.status }
    }
}

} // verus!
