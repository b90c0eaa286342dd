//! Decisions of the rolling writer: split triggers, file naming, and the
//! per-file bookkeeping that decides when a new file starts.

pub mod time;
pub mod types;
pub mod trigger;
pub mod factory;
pub mod writer;
