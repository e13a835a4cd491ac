//! Historical simulation of a strategy: when to decide, what to trade, and in
//! what order a trading day runs. Money amounts are computed by the caller.

pub mod book;
pub mod report;
pub mod schedule;
pub mod simulation;
