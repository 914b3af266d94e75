//! A DPLL-style SAT solver: clauses over integer literals, unit
//! propagation, the MOM branching heuristic, and a depth-first recursive
//! search, together with a reader for the DIMACS clause format. The
//! solver's verdict is proved sound and complete: a satisfiable answer
//! carries a trail whose read-off assignment satisfies every clause, and an
//! unsatisfiable answer means no total assignment exists.
pub mod counts;
pub mod formula;
pub mod parse;
pub mod sem;
pub mod solver;
pub mod stats;

pub use formula::Formula;
pub use parse::{parse_dimacs_file, ParseError};
pub use solver::{solve, SatResult};
pub use stats::State;

use vstd::prelude::*;

verus! {

/// A literal that is forced to evaluate to true: the magnitude names the
/// variable, the sign its polarity.
pub type Assignment = isize;

} // verus!
