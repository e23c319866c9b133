//! Learning from task executions: experiences are collected, recurring patterns are
//! extracted from the successful ones, skills are generated from those patterns, and
//! feedback on the skills closes the loop.

pub mod text;
pub mod stamps;
pub mod seqs;
pub mod experience;
pub mod pattern;
pub mod generator;
pub mod feedback;
pub mod engine;
pub mod laws;

use vstd::prelude::*;

verus! {

/// How often a pattern must be observed before it is reported.
pub const MIN_PATTERN_OCCURRENCES: usize = 3;

/// How many experiences a collector keeps by default.
pub const MAX_EXPERIENCE_BUFFER: usize = 1000;

} // verus!
