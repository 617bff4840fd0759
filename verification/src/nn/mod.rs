//! The dense matrix engine and the feed-forward network built on it.
pub mod data_format;
pub mod data_set;
pub mod matrix;
pub mod neural_network;
