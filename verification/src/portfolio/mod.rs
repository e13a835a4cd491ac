//! Simulation of a portfolio that holds the role winners of every industry.

pub mod analytics;
pub mod engine;
pub mod rebalancer;
pub mod weights;
