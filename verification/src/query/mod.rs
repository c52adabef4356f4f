//! What helps to plan queries.
pub mod statistics;
