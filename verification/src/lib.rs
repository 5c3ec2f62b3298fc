//! Concatenates the text files of a directory tree into one document,
//! honouring version-control-style ignore rules.
//!
//! The crate is organised leaves first:
//! - [`glob`]: segment-level wildcard matching (`*`, `?`, `[...]`, `**`).
//! - [`rules`]: ignore-rule parsing and last-match-wins evaluation.
//! - [`utf8`]: byte-level UTF-8 validity.
//! - [`order`]: lexicographic byte order.
//! - [`tree`]: the in-memory tree model, sorting, deterministic traversal,
//!   and output assembly.
pub mod glob;
pub mod order;
pub mod rules;
pub mod tree;
pub mod utf8;
