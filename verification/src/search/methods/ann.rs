//! Traditional locality-sensitive hashing over signatures of line shingles.

pub mod traditional_lsh;
