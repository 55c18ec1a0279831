//! A verified control-flow dialect.
//!
//! The crate models a small region-based SSA intermediate representation ([ir]), the
//! structured control-flow operations over it ([cf]) and the index type ([index]), and
//! proves what building, checking, printing, parsing and lowering those operations do.

pub mod cf;
pub mod index;
pub mod ir;
