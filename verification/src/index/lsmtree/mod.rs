//! Trees of several levels: keys come into the first level and move on to larger ones.
pub mod cursor;
pub mod service;
pub mod split;
pub mod tree;
