//! Statistics on the cells of a chunk.
pub mod chunk;
pub mod histogram;
pub mod merge;
pub mod partition;
pub mod tally;
