//! Turns a source tree into a bounded set of plain-text dump files: it
//! selects files by extension or explicit inclusion, strips comments while
//! preserving string literals, and concatenates the results into size-capped
//! chunks preceded by a directory-tree listing. This crate holds the verified
//! core: pattern expansion, selection rules, the content sanitizer, the
//! chunked aggregator, the tree renderer, and output-name resolution.
pub mod chunks;
pub mod outname;
pub mod patterns;
pub mod sanitize;
pub mod select;
pub mod text;
pub mod tree;
