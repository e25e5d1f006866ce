//! Passes over the syntax tree: checks of variables, returns, yields and types, scoping of
//! variable names, and inference of expression types.

pub mod validate_returns;
pub mod validate_yields;
pub mod validate_types;
pub mod var_validation;
pub mod var_scoping;
pub mod solve_types;

pub use validate_returns::validate_returns;
pub use var_validation::validate_vars;
pub use var_scoping::scope_vars;

