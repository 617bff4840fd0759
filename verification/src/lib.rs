//! Neuro-evolution: a population of feed-forward networks whose layer sizes,
//! epochs and learning rate evolve by selection, crossover and mutation, each
//! candidate trained by back-propagation and scored on a test set.
//!
//! - [`scalar`] is the number type that everything computes with, and
//!   [`fixed`] a fixed-point implementation of it.
//! - [`nn`] holds the matrix engine, the network, and the data sets with
//!   their text form.
//! - [`ec`] holds the candidates and the driver of the search.
//! - [`random`] holds the random sources.
//! - [`error`] names the ways in which an operation can fail.
pub mod ec;
pub mod error;
pub mod fixed;
pub mod nn;
pub mod random;
pub mod scalar;
