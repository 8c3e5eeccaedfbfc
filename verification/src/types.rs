//! The values a puzzle request and a puzzle carry.
use vstd::prelude::*;

verus! {

/// What the caller asks for: a seed, a time budget (a target and a hard cap,
/// in milliseconds), the board sizes it accepts in order of preference, and a
/// quality label that is passed through.
#[derive(Clone, Debug)]
pub struct GenerateRequest {
    pub seed: u64,
    pub target_ms: u32,
    pub max_ms: u32,
    pub sizes: Vec<usize>,
    pub quality: String,
}

/// A numbered hint: at step `step` (counting from 1) the path is at row
/// `pos[0]`, column `pos[1]`.
#[derive(Clone, Copy, Debug, PartialEq, Eq)]
pub struct Waypoint {
    pub step: usize,
    pub pos: [usize; 2],
}

} // verus!
