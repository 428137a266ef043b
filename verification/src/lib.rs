//! Finding cherry-picks in the commit histories of git repositories.

pub mod bits;
pub mod debug;
pub mod error;
pub mod git;
pub mod sampling;
pub mod search;
pub mod text;

pub use error::{Error, ErrorKind};
