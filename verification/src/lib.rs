//! Aggregation engine for in-memory coverage reports: folds a parsed
//! report (files -> lines -> per-session coverage) into summary totals,
//! session-filtered totals, and per-flag totals.

pub mod cov;
pub mod laws;
pub mod report;
