//! Starting a server and finding others.
pub mod startup;
