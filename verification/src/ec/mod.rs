//! The evolutionary search: candidates and the driver that breeds them.
pub mod contestant;
pub mod evolutionary_computation;
