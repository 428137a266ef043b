//! The banding of signatures for traditional locality-sensitive hashing.

pub use crate::search::methods::lsh::{split_signature, Band, IdPair, TraditionalLSH};
