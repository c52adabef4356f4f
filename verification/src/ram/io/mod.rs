//! Writing cells.
pub mod layout;
pub mod plan;
pub mod reading;
pub mod tail;
pub mod writer;
