//! Lookup of payment-card Bank Identification Numbers (BINs).
//!
//! The crate parses a comma-delimited reference dataset into typed records,
//! builds an in-memory index keyed by the BIN digit string, and answers
//! batch queries that translate BIN strings into the deduplicated set of
//! two-letter ISO country codes represented among the matched records.

pub mod index;
pub mod loader;
pub mod split;

pub use index::BinDb;
pub use loader::{BinDbError, BinRecord, parse_records};
