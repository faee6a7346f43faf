//! Digest of a database slow-query log.
//!
//! The log is cut into records (`parser`), the statement of each record is
//! reduced to a fingerprint that statements of the same shape share
//! (`fingerprint`), the records are summed up per fingerprint (`aggregator`),
//! and the groups are ranked by total time with their percentiles, means and
//! ratios (`report`). Times are whole microseconds throughout.
pub mod aggregator;
pub mod fingerprint;
pub mod instant;
pub mod number;
pub mod parser;
pub mod pattern;
pub mod report;
pub mod sorting;
pub mod text;
