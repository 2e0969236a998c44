//! The two engines and what both promise.

use crate::formula::{Cnf, CnfView, Model};
use vstd::prelude::*;

pub mod assignment;
pub mod cdcl;
pub mod dpll;

pub use cdcl::CdclSolver;
pub use dpll::DpllSolver;

verus! {

/// A decision procedure for satisfiability.
pub trait Solver: Sized {
    /// The content of the formula that the solver was made for.
    spec fn formula(&self) -> CnfView;

    /// Whether the solver is in a state from which `solve` can start, as it
    /// is when `new` has made it.
    spec fn ready(&self) -> bool;

    /// Creates a solver for the formula.
    fn new(formula: Cnf) -> (solver: Self)
        ensures
            solver.ready(),
            solver.formula() == formula@,
    ;

    /// Decides the formula: a model of it when there is one, `None` when
    /// there is none.
    fn solve(self) -> (model: Option<Model>)
        requires
            self.ready(),
        ensures
            model matches Some(m) ==> m.spec_formula() == self.formula()
                && self.formula().satisfied_by(m.spec_assignment()),
            model is None ==> !self.formula().satisfiable(),
    ;
}

} // verus!
