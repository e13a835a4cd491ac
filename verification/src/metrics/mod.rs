//! Measures of a strategy: information coefficients, drawdowns and a random
//! baseline.

pub mod ic;
pub mod stats;
