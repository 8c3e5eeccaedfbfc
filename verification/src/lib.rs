//! Puzzle generation for a path game: a single path must visit every open cell
//! of a square board exactly once, and numbered waypoints pin the path down
//! until it is the only one.
use vstd::prelude::*;

pub mod generator;
pub mod grading;
pub mod grid;
pub mod rng;
pub mod solver;
mod types;

pub use types::{GenerateRequest, Waypoint};

verus! {

} // verus!
