//! Strict, percent-encoding-aware handling of URI references per RFC 3986.
//!
//! The crate validates raw input against per-component character tables,
//! wraps validated regions as typed encoded strings, percent-decodes them
//! on demand, and splits a whole URI reference into its five top-level
//! components while reporting the exact byte offset of the first grammar
//! violation.

pub mod encoder;
pub mod estr;
pub mod estring;
pub mod parser;
pub mod pct;
pub mod split;
pub mod table;
