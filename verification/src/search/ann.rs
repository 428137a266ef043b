//! Approximate nearest-neighbour search: preprocessing of diffs into line shingles and
//! signatures, and the banding of signatures.

pub mod preprocessing;
pub mod traditional_lsh;
