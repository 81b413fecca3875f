//! A DPLL-based solver for boolean satisfiability over named variables.
//!
//! A formula in conjunctive normal form is given as clauses of literal
//! tokens (a variable name, optionally prefixed with `!`).  The solver
//! decides satisfiability and, on success, returns one satisfying partial
//! assignment as a list of signed names.

pub mod semantics;
pub mod solver;
