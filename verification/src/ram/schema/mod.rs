//! Schemas: which fields the cells of a kind have, and where the fields stand.
pub mod field;
pub mod map;
