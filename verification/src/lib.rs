//! A source-to-source transformer for a simplified C-like language.
//!
//! The pipeline inlines quoted header directives, detects top-level
//! function-definition lines, reorders them along a dependency graph
//! (reporting cycles), and rewrites `#define` lines into declarative
//! constructs.  Every stage is specified and verified over sequences
//! of byte lines.

pub mod bytes;
pub mod defines;
pub mod elements;
pub mod graph;
pub mod headers;
pub mod pipeline;
pub mod reassemble;
pub mod scan;
pub mod toposort;
