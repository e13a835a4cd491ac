//! Verified core of an equity research platform.

pub mod backtest;
pub mod calendar;
pub mod correlations;
pub mod costs;
pub mod daily;
pub mod data;
pub mod earnings;
pub mod forward_test;
pub mod fx;
pub mod gics;
pub mod holdings;
pub mod journal;
pub mod llm;
pub mod metrics;
pub mod number;
pub mod order;
pub mod paper_trading;
pub mod portfolio;
pub mod report;
pub mod risk;
pub mod roles;
pub mod sheet;
pub mod signals;
pub mod text;
