//! The index dialect.

pub mod types;
