//! Reports for a terminal.

pub mod cli;
