//! The search methods.
pub mod lsh;
pub mod message_scan;
pub mod exact_diff;
pub mod similar_diff;
pub mod ann;
