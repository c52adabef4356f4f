//! A cell store's core: keys and B+ tree pages, merged levels, schemas, write plans, statistics
//! and server start-up decisions.
pub mod index;
pub mod query;
pub mod ram;
pub mod server;
