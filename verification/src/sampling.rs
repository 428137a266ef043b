//! Sampling repositories from GitHub: the decisions of the samplers, apart from the requests
//! they make.

pub mod fully_random;
pub mod most_stars;
