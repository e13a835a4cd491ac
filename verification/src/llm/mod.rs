//! Strategies described in words: the parsed form and the reading of a
//! language model's reply.

pub mod gemini;
pub mod strategy_spec;
