//! What holds of the library as a whole.

pub mod commands;
pub mod determinism;
pub mod drawing;
pub mod exact;
pub mod findings;
pub mod geometry;
pub mod grids;
pub mod inputs;
pub mod limits;
pub mod pins;
pub mod reading;
pub mod sharing;
pub mod stages;
pub mod summaries;
pub mod verdicts;
