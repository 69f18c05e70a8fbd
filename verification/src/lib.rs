//! Title normalization and document linting for a weekly changelog digest.
//!
//! The crate takes raw "title + link" records, decides which substrings are
//! code (and must be backtick-wrapped), rewrites casing into a house style,
//! deduplicates against a previous run, filters by keyword, orders by a
//! configured repository priority, and re-validates a rendered document
//! against the same style rules.

pub mod config;
pub mod date;
pub mod entry;
pub mod filter;
pub mod idempotence;
pub mod lint;
pub mod num;
pub mod text;
pub mod title;
pub mod word;
