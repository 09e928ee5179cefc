//! A local-search satisfiability solver. Clauses are lists of signed literals
//! (`v + 1` for variable `v`, `-(v + 1)` for its negation). A preprocessor runs
//! unit propagation, drops tautologies and collapses repeated literals to a
//! fixpoint; a WalkSAT-style search then flips variables of violated clauses,
//! keeping per-clause counts of true literals and the set of violated clauses
//! in step, within a budget of flips proportional to the variable count.
use vstd::prelude::*;

pub mod formula;
pub mod random;
pub mod residual;
pub mod search;
pub mod simplify;
pub mod solver;

pub use residual::ResidualSet;
pub use search::SearchState;
pub use simplify::{preprocess, propagate, reduce_clause, simplify_pass, Simplified};
pub use solver::{
    initial_assignment, solve_challenge, solve_traced, validate, Challenge, SearchOutcome,
    Solution, SolveError, FLIP_FACTOR,
};

verus! {

} // verus!
