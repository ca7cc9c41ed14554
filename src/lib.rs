use vstd::prelude::*;

pub mod clause;
pub mod dimacs;
pub mod dpll;
pub mod literal;
pub mod model;
pub mod propagation;
pub mod sat_solver;
pub mod sat_solver_core;

pub use clause::Clause;
pub use dimacs::{DimacsParseError, DIMACS};
pub use dpll::DPLL;
pub use literal::Literal;
pub use model::{Model, TruthAssign};
pub use sat_solver::{SATSolver, Variable};

verus! {

/// The search engine behind `SATSolver`.
pub type SATSolverCore = dpll::DPLL;

} // verus!
