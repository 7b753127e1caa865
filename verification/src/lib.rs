//! Pairwise alignment of byte sequences under two cost models.
//!
//! The crate offers four solvers for the unit-cost edit distance — a
//! quadratic dynamic-programming solver and a diagonal frontier-expansion
//! solver, each in a plain form and a form whose per-cell state is a packed
//! fixed-width record — together with an affine-gap scorer (Gotoh's
//! algorithm).  Every solver returns the numeric score and the full edit
//! script, and every solver is verified against a mathematical model of
//! alignments.

pub mod alignments;
pub mod distance;
pub mod edit_dist_usual;
pub mod edit_dist_usual_clean;
pub mod edit_dist_diff;
pub mod edit_dist_diff_clean;
pub mod affine_gap;
