//! A structural code search-and-rewrite engine. A query is a small
//! snippet of source code whose metavariables (`$NAME`) stand for
//! arbitrary subtrees, and `$$$` for a run of siblings; matching a
//! compiled query against a parsed tree yields a capture environment,
//! and a template instantiated under those captures becomes a byte-range
//! edit that can be applied, alone or in conflict-free batches, to the
//! source text.

pub mod env;
pub mod error;
pub mod matcher;
mod parse;
pub mod pattern;
pub mod replace;
pub mod source;
pub mod tree;

pub use env::{Binding, Environment};
pub use error::Error;
pub use pattern::Pattern;
pub use replace::{apply_edit, apply_edits, Edit, Replacer};
pub use source::SourceText;
pub use tree::{Node, NodeData, Root};
