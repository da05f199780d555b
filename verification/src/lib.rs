//! A genetic-algorithm solver for the multi-depot vehicle routing problem.
//!
//! A candidate solution (a genome) is a flat sequence of customer indices
//! separated by zero sentinels; each zero closes one vehicle's route.  The
//! decoder walks such a sequence against the depots' load and duration
//! limits, the repair pass tries to move separators so that limits hold,
//! and permutation-preserving mutation and crossover operators search the
//! space of sequences.

use vstd::prelude::*;

pub mod decode;
pub mod edge;
pub mod engine;
pub mod evolution;
pub mod genome;
mod isqrt;
pub mod params;
pub mod perm;
pub mod pmx;
pub mod repair;
pub mod report;
mod rng;
pub mod selection;
pub mod world;

verus! {

/// Every coordinate of a depot or customer must lie in
/// [-MAX_COORD, MAX_COORD] so that squared distances fit in `u64`
/// and accumulated route costs fit in `i64`.
pub const MAX_COORD: i64 = 1_000_000;

} // verus!
