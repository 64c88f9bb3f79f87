//! What a solver is given and what it can be told.

pub mod problem;
pub mod solver;

pub use problem::Problem;
pub use solver::Parameter;
