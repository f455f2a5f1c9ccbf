//! Acquisition and local verification of competitive-programming problems:
//! extracting a problem's title and sample input/output pairs from its page,
//! storing the record as a human-readable text file that round-trips
//! exactly, and judging a solution's outputs against the stored samples.

pub mod extract;
pub mod problem;
pub mod runner;
pub mod store;
