//! Cells in memory: their types, schemas and layout.
pub mod io;
pub mod schema;
pub mod types;
