//! A local, file-backed task tracker engine.
//!
//! Each task is a small markdown file with a structured front-matter header,
//! stored in its own directory named by a creation timestamp and a content
//! fingerprint. This crate holds the storage engine: the task record's
//! serialization format, the offset and config parsers, the civil date
//! computation used to derive folder names, and the listing and closing
//! rules. All file-system access is left to the caller, which hands the
//! engine plain values (strings and vectors) and receives plain values back.

pub mod datetime;
pub mod lines;
pub mod store;
pub mod task;
pub mod text;
