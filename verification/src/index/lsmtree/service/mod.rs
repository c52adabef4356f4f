//! Trees that are read by others through cursors which live here.
pub mod inner;
pub mod recent;
