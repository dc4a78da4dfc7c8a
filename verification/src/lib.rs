//! Locates media container files in a directory tree, drives an external
//! metadata-dump tool over each one, and scans the tool's output for an
//! "Origin" marker followed by an eight-byte hex payload. Results are
//! memoized in a persistent ledger keyed by a reversibly encoded file path,
//! so repeated runs skip already-processed files.
//!
//! The heart of the library is the chunked, boundary-safe marker scanner
//! ([`matcher`], over the grammar of [`pattern`]) and the scan/dedup
//! pipeline ([`scanner`], [`pipeline`]) around the persistent [`ledger`];
//! [`laws`] states and proves what the bounded window guarantees.

pub mod codec;
pub mod dump;
pub mod entry;
pub mod laws;
pub mod ledger;
pub mod matcher;
pub mod pattern;
pub mod pipeline;
pub mod scanner;
pub mod text;
