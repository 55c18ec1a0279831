//! Finding out whether an operation can be lowered.

use crate::cf::ops::{BrOp, CondBrOp, ForOp, IfOp, NDForOp};
use crate::cf::to_llvm::CFToLLVM;
use crate::ir::context::Context;
use crate::ir::types::{BlockId, OpId, OpKind, RegionId};
use vstd::prelude::*;

verus! {

/// Does region `i` of an operation end with a `yield` that has neither results nor regions, and
/// is the operation outside of it?
fn yields_outward(ctx: &Context, op: OpId, i: usize) -> (b: bool)
    requires
        ctx.wf(),
        ctx@.placed(op),
    ensures
        b == ctx@.yields_outward(op, i as int),
{
    let ghost ir = ctx@;
    let regions = ctx.regions(op);
    if i >= regions.len() {
        return false;
    }
    proof {
        ir.region_there(op, i as int);
        ir.position_in_range(op);
    }
    let region: RegionId = regions[i];
    let blocks = ctx.blocks(region);
    if blocks.len() == 0 {
        return false;
    }
    proof {
        ir.entry_exit_in_range(op, i as int);
    }
    let exit: BlockId = blocks[blocks.len() - 1];
    let holder: BlockId = ctx.parent_block(op).unwrap();
    if ctx.parent_region(holder) == region {
        return false;
    }
    match ctx.last_op(exit) {
        None => false,
        Some(last) => {
            let yields: bool = match ctx.kind(last) {
                OpKind::CfYield => true,
                _ => false,
            };
            yields && ctx.regions(last).len() == 0 && ctx.num_results(last) == 0
        },
    }
}

/// Is the operation in a block?
fn placed(ctx: &Context, op: OpId) -> (b: bool)
    ensures
        b == ctx@.placed(op),
{
    ctx.has_op(op) && ctx.parent_block(op).is_some()
}

impl CFToLLVM {
    /// Can the operation, which is one of control flow, be lowered as it is?
    pub fn can_rewrite(&self, ctx: &Context, op: OpId) -> (b: bool)
        requires
            ctx.wf(),
            ctx@.ops.contains_key(op),
        ensures
            b == CFToLLVM::lowerable(ctx@, op),
    {
        if !placed(ctx, op) {
            return false;
        }
        match ctx.kind(op) {
            OpKind::CfBr => (BrOp { op }).can_rewrite(ctx),
            OpKind::CfCondBr => (CondBrOp { op }).can_rewrite(ctx),
            OpKind::CfFor => (ForOp { op }).can_rewrite(ctx),
            OpKind::CfNDFor => (NDForOp { op }).can_rewrite(ctx),
            OpKind::CfExecuteRegion => ctx.regions(op).len() == 1 && yields_outward(ctx, op, 0),
            OpKind::CfIf => (IfOp { op }).can_rewrite(ctx),
            _ => false,
        }
    }
}

impl BrOp {
    fn can_rewrite(&self, ctx: &Context) -> (b: bool)
        requires
            ctx@.placed(self.op),
        ensures
            b == self.lowerable(ctx@),
    {
        ctx.num_results(self.op) == 0 && ctx.regions(self.op).len() == 0 && ctx.successors(
            self.op,
        ).len() > 0
    }
}

impl CondBrOp {
    fn can_rewrite(&self, ctx: &Context) -> (b: bool)
        requires
            ctx@.placed(self.op),
        ensures
            b == self.lowerable(ctx@),
    {
        ctx.num_results(self.op) == 0 && ctx.regions(self.op).len() == 0 && ctx.successors(
            self.op,
        ).len() > 1 && ctx.operands(self.op).len() > 0 && ctx.has_segment(self.op, 2)
    }
}

impl ForOp {
    fn can_rewrite(&self, ctx: &Context) -> (b: bool)
        requires
            ctx.wf(),
            ctx@.placed(self.op),
        ensures
            b == self.lowerable(ctx@),
    {
        if !ctx.has_segment(self.op, 1) || ctx.regions(self.op).len() != 1 {
            return false;
        }
        let segments = ctx.segments(self.op);
        if segments[0] < 3 || segments[1] == u32::MAX || ctx.num_results(self.op)
            != segments[1] as usize {
            return false;
        }
        if !yields_outward(ctx, self.op, 0) {
            return false;
        }
        proof {
            ctx@.entry_exit_in_range(self.op, 0);
        }
        let region: RegionId = ctx.regions(self.op)[0];
        ctx.num_arguments(ctx.blocks(region)[0]) > 0
    }
}

impl NDForOp {
    fn can_rewrite(&self, ctx: &Context) -> (b: bool)
        requires
            ctx.wf(),
            ctx@.placed(self.op),
        ensures
            b == self.lowerable(ctx@),
    {
        if !ctx.has_segment(self.op, 2) || ctx.num_results(self.op) != 0 || ctx.regions(
            self.op,
        ).len() != 1 {
            return false;
        }
        proof {
            let view = ctx@.ops[self.op];
            view.earlier_segment(0, 2);
            view.earlier_segment(1, 2);
            view.segment_in_range(0);
            view.segment_in_range(1);
            view.segment_in_range(2);
        }
        let segments = ctx.segments(self.op);
        segments[0] > 0 && segments[1] > 0 && segments[2] > 0 && yields_outward(ctx, self.op, 0)
    }
}

impl IfOp {
    fn can_rewrite(&self, ctx: &Context) -> (b: bool)
        requires
            ctx.wf(),
            ctx@.placed(self.op),
        ensures
            b == self.lowerable(ctx@),
    {
        let num_regions: usize = ctx.regions(self.op).len();
        ctx.operands(self.op).len() > 0 && 1 <= num_regions && num_regions <= 2 && yields_outward(
            ctx,
            self.op,
            0,
        ) && (num_regions == 1 || yields_outward(ctx, self.op, 1))
    }
}

} // verus!
