//! Ordered index of entry keys.
pub mod btree;
pub mod key;
pub mod lsmtree;
pub mod merging;
