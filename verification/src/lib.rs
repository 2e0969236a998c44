//! A SAT solver for formulas in conjunctive normal form.
//!
//! Two engines are provided, a recursive DPLL search and an iterative CDCL
//! search with clause learning. Both return a model exactly when the formula
//! is satisfiable, and both are proved to do so.

pub mod count;
pub mod formula;
pub mod parser;
pub mod solver;
pub mod text;
