//! The daily job: what it recommends, how past days are replayed, and what the
//! morning and evening reports say.

pub mod backfill;
pub mod evening;
pub mod morning;
pub mod picks;
