//! Reader and extractor for the `TMOD` mod package container.
//!
//! The container is parsed from an in-memory byte buffer by verified functions
//! whose contracts are stated against spec functions of the byte grammar.

pub mod error;
pub mod varint;
pub mod fields;
pub mod container;
pub mod extract;
