//! A node-addressable cache of hierarchical project documents.
//!
//! Documents are trees of named elements (`project > target > groups > group >
//! files > file`). The cache hands out opaque identifiers for the structural
//! nodes of a document, resolves them back to positions through path
//! expressions, and edits the tree at the resolved position.

pub mod edit;
pub mod error;
pub mod folders;
pub mod laws;
pub mod model;
pub mod nodemap;
pub mod outside;
pub mod path;
pub mod project_cache;
pub mod sort;
pub mod store;
pub mod text;
pub mod tree;
pub mod xml;
