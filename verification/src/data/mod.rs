//! Market data: the shapes it comes in, dated views of it, and the parsers of
//! what the data providers send.

pub mod asof;
pub mod cache;
pub mod edgar;
pub mod fred;
pub mod gdelt;
pub mod json;
pub mod membership;
pub mod prices;
pub mod reddit;
pub mod sec_facts;
pub mod source;
pub mod types;
pub mod xml;
pub mod yahoo;
