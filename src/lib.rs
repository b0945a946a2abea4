//! Plain-text requirements management.
//!
//! Requirements are short markdown documents, each with a stable UUID and a
//! human-readable identifier (HRID), linked into a directed acyclic graph of
//! parent/child relationships.

pub mod text;
pub mod hrid;
pub mod config;
pub mod graph;
pub mod index;
pub mod requirement;
pub mod tree;
pub mod hrid_tree;
pub mod markdown;
pub mod directory;
