//! A tolerant markup parser that builds a small document tree, and a
//! companion style-sheet parser that builds a flat rule list.
//!
//! Both parsers never fail: malformed input yields a degraded but fully
//! defined result, stated exactly by the spec-level parsers that the
//! executable functions are proved to match.

pub mod css;
pub mod dom;
pub mod text;
