//! Correlations of industries and what follows from them.

pub mod concentration_guard;
pub mod correlation_matrix;
pub mod pairs_signal;
