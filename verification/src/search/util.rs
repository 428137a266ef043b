//! Candidate search among commits: an index of shared changes and the comparison of all pairs.

pub mod ann;
pub mod brute_force;
