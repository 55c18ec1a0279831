//! A region-based SSA intermediate representation.
//!
//! Operations live in blocks, blocks live in regions, and regions belong to operations.

pub mod changes;
pub mod context;
pub mod edit;
pub mod lemmas;
pub mod model;
pub mod rewriter;
pub mod segments;
pub mod text;
pub mod types;
