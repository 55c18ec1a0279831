//! The control-flow dialect.

pub mod agreement;
pub mod checks;
pub mod op_interfaces;
pub mod ops;
pub mod paths;
pub mod region_checks;
pub mod scope;
pub mod semantics;
pub mod single;
pub mod syntax;
pub mod to_llvm;
pub mod verify;
