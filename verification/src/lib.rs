//! A conflict-driven clause-learning (CDCL) boolean satisfiability solver.
//!
//! The solver decides whether a propositional formula in conjunctive normal
//! form has a satisfying assignment, and produces one when it does.  It
//! follows the MiniSat architecture: a trail-based assignment manager, a
//! two-watched-literal unit propagator, a first-UIP conflict analyzer with
//! non-chronological backjumping, activity-driven branching and clause
//! deletion, and a restart controller.

pub mod activity;
pub mod dimacs;
pub mod solver;
pub mod types;
