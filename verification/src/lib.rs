//! Verified core of a measurement-file ingestion service.
//!
//! Industrial test stations drop fixed-format text files into a directory:
//! article files (`key = value` parameter lists) and measurement files
//! (alternating tab-separated header/value lines). This crate parses those
//! files into uniform in-memory tables, reconciles differing column sets,
//! and keeps a concurrent name-to-table cache synchronized with the
//! directory by modification time.

pub mod article;
pub mod error;
pub mod measurement;
pub mod num;
pub mod store;
pub mod sync;
pub mod table;
pub mod text;
