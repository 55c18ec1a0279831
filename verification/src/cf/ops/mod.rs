//! Control-flow ops and related functionality.

mod branch;
mod construction;
mod execute_region;
mod for_op;
mod forwarded;
mod if_op;
mod nd_for;
mod parts;
mod yield_op;

pub use branch::{BrOp, CondBrOp, CondBrOpVerifyErr};
pub use execute_region::{ExecuteRegionOp, ExecuteRegionOpVerifyErr};
pub use for_op::{ForOp, ForOpVerifyErr};
pub use if_op::{IfOp, IfOpVerifyErr};
pub use nd_for::{NDForOp, NDForOpParseErr, NDForOpVerifyErr};
pub use yield_op::{YieldOp, YieldOpVerifyErr};
