//! Access-log minute/IP aggregation.
//!
//! The library filters access-log lines by a fixed request-path substring,
//! derives a minute-resolution timestamp key and a client IP key from each
//! kept line, counts requests per (minute, ip) pair, and renders the counts
//! as a fixed-width text table sorted by key.

pub mod aggregate;
pub mod extract;
pub mod report;
pub mod text;

pub use aggregate::Aggregate;
pub use aggregate::Entry;

pub use extract::extract_internal_ip;
pub use extract::extract_minute;
pub use extract::line_matches_filter;
