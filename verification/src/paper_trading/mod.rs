//! A paper portfolio: positions held on paper, their rebalancing and status.

pub mod engine;
pub mod report;
