//! Verification of the operations of the dialect.

use crate::cf::op_interfaces::{YieldingRegions, YieldingRegionsVerifyErr};
use crate::cf::ops::{
    BrOp, CondBrOp, CondBrOpVerifyErr, ExecuteRegionOp, ExecuteRegionOpVerifyErr, ForOp,
    ForOpVerifyErr, IfOp, IfOpVerifyErr, NDForOp, NDForOpVerifyErr, YieldOp, YieldOpVerifyErr,
};
use crate::ir::context::Context;
use crate::ir::model::Ir;
use crate::ir::segments::Segments;
use crate::ir::types::{BlockId, OpId, OpKind, Value};
use vstd::prelude::*;

verus! {

/// Why an operation of the dialect is not in order.
#[derive(Debug, Clone, Copy, PartialEq, Eq, Structural)]
pub enum VerifyErr {
    /// A block in a region of the operation does not end with a terminator.
    MissingTerminator,
    NumResults,
    NumSuccessors,
    NumRegions,
    /// The sizes of the operand segments do not add up to the number of operands.
    SegmentTotal,
    SegmentCount,
    /// A branch forwards more or fewer values than its target takes.
    ForwardedCount,
    /// A branch forwards a value of another type than its target takes.
    ForwardedType,
    /// A region does not have exactly one block.
    SingleBlockRegion,
    YieldingRegions(YieldingRegionsVerifyErr),
    Yield(YieldOpVerifyErr),
    CondBr(CondBrOpVerifyErr),
    For(ForOpVerifyErr),
    NDFor(NDForOpVerifyErr),
    ExecuteRegion(ExecuteRegionOpVerifyErr),
    If(IfOpVerifyErr),
}

/// What the single checks find.
impl VerifyErr {
    /// The first of two findings.
    pub open spec fn first(a: Option<VerifyErr>, b: Option<VerifyErr>) -> Option<VerifyErr> {
        if a is Some {
            a
        } else {
            b
        }
    }

    /// A finding, if a condition does not hold.
    pub open spec fn unless(ok: bool, err: VerifyErr) -> Option<VerifyErr> {
        if ok {
            None
        } else {
            Some(err)
        }
    }

    /// Does every block in the regions of the operation end with a terminator?
    pub open spec fn terminated(ir: Ir, op: OpId) -> bool {
        forall|i: int, j: int|
            #![trigger ir.regions[ir.ops[op].regions[i]].blocks[j]]
            0 <= i < ir.ops[op].regions.len() && 0 <= j
                < ir.regions[ir.ops[op].regions[i]].blocks.len() ==> ir.terminator(
                ir.regions[ir.ops[op].regions[i]].blocks[j],
            ) is Some
    }

    /// Does every region of the operation have exactly one block?
    pub open spec fn single_blocks(ir: Ir, op: OpId) -> bool {
        forall|i: int|
            0 <= i < ir.ops[op].regions.len() ==> ir.regions[
            #[trigger] ir.ops[op].regions[i]].blocks.len() == 1
    }

    /// Do the sizes of the operand segments add up to the number of operands?
    pub open spec fn segments_add_up(ir: Ir, op: OpId) -> bool {
        Segments::total(ir.ops[op].segments) == ir.ops[op].operands.len()
    }

    /// What is wrong with the regions, for one that yields from them.
    pub open spec fn yielding(ir: Ir, op: OpId) -> Option<VerifyErr> {
        match YieldingRegionsVerifyErr::fault_from::<YieldOp>(ir, op, 0) {
            Some(err) => Some(VerifyErr::YieldingRegions(err)),
            None => None,
        }
    }

    /// What is wrong with forwarding the values to a block.
    pub open spec fn forwarding(ir: Ir, values: Seq<Value>, dest: BlockId) -> Option<VerifyErr> {
        if values.len() != ir.blocks[dest].args.len() {
            Some(VerifyErr::ForwardedCount)
        } else if exists|i: int|
            0 <= i < values.len() && ir.def(#[trigger] values[i]).ty != ir.blocks[dest].args[i].ty {
            Some(VerifyErr::ForwardedType)
        } else {
            None
        }
    }

    /// What is wrong with an operation, as far as operations of other kinds are checked in the
    /// same way: how many results, successors, regions and operands it has, what its regions
    /// end with, and what it forwards.
    pub open spec fn common_finding(ir: Ir, op: OpId) -> Option<VerifyErr> {
        let view = ir.ops[op];
        let results = VerifyErr::unless(view.results.len() == 0, VerifyErr::NumResults);
        let one_region = VerifyErr::unless(view.regions.len() == 1, VerifyErr::NumRegions);
        let total = VerifyErr::unless(VerifyErr::segments_add_up(ir, op), VerifyErr::SegmentTotal);
        let single = VerifyErr::unless(
            VerifyErr::single_blocks(ir, op),
            VerifyErr::SingleBlockRegion,
        );
        let terminated = VerifyErr::unless(
            VerifyErr::terminated(ir, op),
            VerifyErr::MissingTerminator,
        );
        let yielding = VerifyErr::yielding(ir, op);
        match view.kind {
            OpKind::CfYield => results,
            OpKind::CfBr => VerifyErr::first(
                results,
                VerifyErr::first(
                    VerifyErr::unless(view.successors.len() == 1, VerifyErr::NumSuccessors),
                    VerifyErr::forwarding(ir, view.operands, view.successors[0]),
                ),
            ),
            OpKind::CfCondBr => VerifyErr::first(
                results,
                VerifyErr::first(
                    VerifyErr::unless(view.successors.len() == 2, VerifyErr::NumSuccessors),
                    VerifyErr::first(
                        total,
                        VerifyErr::first(
                            VerifyErr::unless(view.segments.len() == 3, VerifyErr::SegmentCount),
                            VerifyErr::first(
                                VerifyErr::forwarding(ir, view.segment(1), view.successors[0]),
                                VerifyErr::forwarding(ir, view.segment(2), view.successors[1]),
                            ),
                        ),
                    ),
                ),
            ),
            OpKind::CfFor => VerifyErr::first(
                terminated,
                VerifyErr::first(
                    one_region,
                    VerifyErr::first(
                        total,
                        VerifyErr::first(
                            VerifyErr::unless(view.segments.len() == 2, VerifyErr::SegmentCount),
                            VerifyErr::first(yielding, single),
                        ),
                    ),
                ),
            ),
            OpKind::CfNDFor => VerifyErr::first(
                terminated,
                VerifyErr::first(
                    one_region,
                    VerifyErr::first(
                        results,
                        VerifyErr::first(total, VerifyErr::first(yielding, single)),
                    ),
                ),
            ),
            OpKind::CfExecuteRegion => VerifyErr::first(
                terminated,
                VerifyErr::first(one_region, yielding),
            ),
            OpKind::CfIf => VerifyErr::first(
                terminated,
                VerifyErr::first(
                    VerifyErr::unless(1 <= view.regions.len() <= 2, VerifyErr::NumRegions),
                    VerifyErr::first(yielding, single),
                ),
            ),
            _ => None,
        }
    }

    /// What is wrong with an operation, as far as only operations of its kind are checked in
    /// this way.
    pub open spec fn own_finding(ir: Ir, op: OpId) -> Option<VerifyErr> {
        match ir.ops[op].kind {
            OpKind::CfYield => match (YieldOp { op }).verified(ir) {
                Ok(()) => None,
                Err(err) => Some(VerifyErr::Yield(err)),
            },
            OpKind::CfCondBr => match (CondBrOp { op }).verified(ir) {
                Ok(()) => None,
                Err(err) => Some(VerifyErr::CondBr(err)),
            },
            OpKind::CfFor => match (ForOp { op }).verified(ir) {
                Ok(()) => None,
                Err(err) => Some(VerifyErr::For(err)),
            },
            OpKind::CfNDFor => match (NDForOp { op }).verified(ir) {
                Ok(()) => None,
                Err(err) => Some(VerifyErr::NDFor(err)),
            },
            OpKind::CfExecuteRegion => match (ExecuteRegionOp { op }).verified(ir) {
                Ok(()) => None,
                Err(err) => Some(VerifyErr::ExecuteRegion(err)),
            },
            OpKind::CfIf => match (IfOp { op }).verified(ir) {
                Ok(()) => None,
                Err(err) => Some(VerifyErr::If(err)),
            },
            _ => None,
        }
    }

    /// What is wrong with an operation. Its regions have been checked before, as far as what
    /// is in them goes.
    pub open spec fn finding(ir: Ir, op: OpId) -> Option<VerifyErr> {
        VerifyErr::first(VerifyErr::common_finding(ir, op), VerifyErr::own_finding(ir, op))
    }

    /// Has an operation what its own check looks at, if it gets as far as that? A conditional
    /// branch and an `if` have a first operand; a loop whose variables agree has its bounds and
    /// an induction variable.
    pub open spec fn checkable(ir: Ir, op: OpId) -> bool {
        let view = ir.ops[op];
        VerifyErr::common_finding(ir, op) is None ==> match view.kind {
            OpKind::CfCondBr | OpKind::CfIf => view.operands.len() > 0,
            OpKind::CfFor => (ForOp { op }).counts_match(ir) && (ForOp { op }).types_match(ir)
                ==> view.segments[0] >= 3 && ir.blocks[(ForOp { op }).entry(ir)].args.len() > 0,
            _ => true,
        }
    }
}

/// Does every block in the regions of the operation end with a terminator?
fn terminated(ctx: &Context, op: OpId) -> (b: bool)
    requires
        ctx.wf(),
        ctx@.ops.contains_key(op),
    ensures
        b == VerifyErr::terminated(ctx@, op),
{
    let ghost ir = ctx@;
    let regions = ctx.regions(op);
    for i in 0..regions.len()
        invariant
            ctx.wf(),
            ir == ctx@,
            ir.ops.contains_key(op),
            regions@ == ir.ops[op].regions,
            forall|k: int, j: int|
                #![trigger ir.regions[ir.ops[op].regions[k]].blocks[j]]
                0 <= k < i && 0 <= j < ir.regions[ir.ops[op].regions[k]].blocks.len()
                    ==> ir.terminator(ir.regions[ir.ops[op].regions[k]].blocks[j]) is Some,
    {
        let ghost region = ir.ops[op].regions[i as int];
        proof {
            ir.region_there(op, i as int);
        }
        let blocks = ctx.blocks(regions[i]);
        for j in 0..blocks.len()
            invariant
                ctx.wf(),
                ir == ctx@,
                0 <= i < ir.ops[op].regions.len(),
                region == ir.ops[op].regions[i as int],
                ir.regions.contains_key(region),
                blocks@ == ir.regions[region].blocks,
                forall|k: int|
                    0 <= k < j ==> ir.terminator(#[trigger] ir.regions[region].blocks[k]) is Some,
        {
            proof {
                ir.block_position_unique(region, j as int);
            }
            if !ends_with_terminator(ctx, blocks[j]) {
                assert(ir.terminator(ir.regions[ir.ops[op].regions[i as int]].blocks[j as int]) is None);
                return false;
            }
        }
    }
    true
}

/// Does the block end with a terminator?
fn ends_with_terminator(ctx: &Context, block: BlockId) -> (b: bool)
    requires
        ctx.wf(),
        ctx@.blocks.contains_key(block),
    ensures
        b == (ctx@.terminator(block) is Some),
{
    match ctx.last_op(block) {
        Some(last) => {
            proof {
                ctx@.position_unique(block, ctx@.blocks[block].ops.len() - 1);
            }
            ctx.kind(last).is_terminator()
        },
        None => false,
    }
}

/// Does every region of the operation have exactly one block?
fn single_blocks(ctx: &Context, op: OpId) -> (b: bool)
    requires
        ctx.wf(),
        ctx@.ops.contains_key(op),
    ensures
        b == VerifyErr::single_blocks(ctx@, op),
{
    let ghost ir = ctx@;
    let regions = ctx.regions(op);
    for i in 0..regions.len()
        invariant
            ctx.wf(),
            ir == ctx@,
            ir.ops.contains_key(op),
            regions@ == ir.ops[op].regions,
            forall|k: int|
                0 <= k < i ==> ir.regions[#[trigger] ir.ops[op].regions[k]].blocks.len() == 1,
    {
        proof {
            ir.region_there(op, i as int);
        }
        if ctx.blocks(regions[i]).len() != 1 {
            assert(ir.regions[ir.ops[op].regions[i as int]].blocks.len() != 1);
            return false;
        }
    }
    true
}

/// Do the sizes of the operand segments add up to the number of operands?
fn segments_add_up(ctx: &Context, op: OpId) -> (b: bool)
    requires
        ctx@.ops.contains_key(op),
    ensures
        b == VerifyErr::segments_add_up(ctx@, op),
{
    let sizes = ctx.segments(op);
    let count: usize = ctx.operands(op).len();
    let mut total: usize = 0;
    assert(sizes@.take(0).len() == 0);
    for i in 0..sizes.len()
        invariant
            total == Segments::total(sizes@.take(i as int)),
            sizes@ == ctx@.ops[op].segments,
            count == ctx@.ops[op].operands.len(),
            total <= count,
    {
        proof {
            Segments::total_step(sizes@, i as int);
            Segments::total_monotonic(sizes@, i + 1, sizes@.len() as int);
            assert(sizes@.take(sizes@.len() as int) =~= sizes@);
        }
        if sizes[i] as usize > count - total {
            return false;
        }
        total = total + sizes[i] as usize;
    }
    assert(sizes@.take(sizes@.len() as int) =~= sizes@);
    total == count
}

/// Checks that the values can be forwarded to a block.
fn check_forwarding(ctx: &Context, values: &Vec<Value>, dest: BlockId) -> (result: Result<
    (),
    VerifyErr,
>)
    requires
        ctx.wf(),
        ctx@.has_values(values@),
        ctx@.blocks.contains_key(dest),
    ensures
        result == (match VerifyErr::forwarding(ctx@, values@, dest) {
            None => Ok(()),
            Some(err) => Err(err),
        }),
{
    let ghost ir = ctx@;
    if values.len() != ctx.num_arguments(dest) {
        return Err(VerifyErr::ForwardedCount);
    }
    for i in 0..values.len()
        invariant
            ctx.wf(),
            ir == ctx@,
            ir.has_values(values@),
            ir.blocks.contains_key(dest),
            values@.len() == ir.blocks[dest].args.len(),
            forall|k: int|
                0 <= k < i ==> ir.def(#[trigger] values@[k]).ty == ir.blocks[dest].args[k].ty,
    {
        if ctx.type_of(values[i]) != ctx.type_of(Value::BlockArgument { block: dest, idx: i }) {
            assert(ir.def(values@[i as int]).ty != ir.blocks[dest].args[i as int].ty);
            return Err(VerifyErr::ForwardedType);
        }
    }
    Ok(())
}

fn common_yield(ctx: &Context, op: OpId) -> (result: Result<(), VerifyErr>)
    requires
        ctx.wf(),
        ctx@.ops.contains_key(op),
        ctx@.ops[op].kind is CfYield,
    ensures
        result == (match VerifyErr::common_finding(ctx@, op) {
            None => Ok(()),
            Some(err) => Err(err),
        }),
{
    if ctx.num_results(op) != 0 {
        return Err(VerifyErr::NumResults);
    }
    Ok(())
}

fn common_br(ctx: &Context, op: OpId) -> (result: Result<(), VerifyErr>)
    requires
        ctx.wf(),
        ctx@.ops.contains_key(op),
        ctx@.ops[op].kind is CfBr,
    ensures
        result == (match VerifyErr::common_finding(ctx@, op) {
            None => Ok(()),
            Some(err) => Err(err),
        }),
{
    if ctx.num_results(op) != 0 {
        return Err(VerifyErr::NumResults);
    }
    let successors = ctx.successors(op);
    if successors.len() != 1 {
        return Err(VerifyErr::NumSuccessors);
    }
    proof {
        ctx@.operands_there(op);
        ctx@.successors_there(op);
    }
    check_forwarding(ctx, &(BrOp { op }).successor_operands(ctx, 0), successors[0])
}

fn common_cond_br(ctx: &Context, op: OpId) -> (result: Result<(), VerifyErr>)
    requires
        ctx.wf(),
        ctx@.ops.contains_key(op),
        ctx@.ops[op].kind is CfCondBr,
    ensures
        result == (match VerifyErr::common_finding(ctx@, op) {
            None => Ok(()),
            Some(err) => Err(err),
        }),
{
    let ghost ir = ctx@;
    let ghost view = ir.ops[op];
    if ctx.num_results(op) != 0 {
        return Err(VerifyErr::NumResults);
    }
    let successors = ctx.successors(op);
    if successors.len() != 2 {
        return Err(VerifyErr::NumSuccessors);
    }
    if !segments_add_up(ctx, op) {
        return Err(VerifyErr::SegmentTotal);
    }
    if ctx.num_segments(op) != 3 {
        return Err(VerifyErr::SegmentCount);
    }
    proof {
        ir.operands_there(op);
        ir.successors_there(op);
        view.all_segments_there();
        view.segment_in_range(1);
        view.segment_in_range(2);
        assert(view.successors[0] == successors@[0] && view.successors[1] == successors@[1]);
    }
    let this = CondBrOp { op };
    let true_dest_opds = this.successor_operands(ctx, 0);
    let false_dest_opds = this.successor_operands(ctx, 1);
    assert forall|i: int| 0 <= i < true_dest_opds@.len() implies ir.has_value(
        #[trigger] true_dest_opds@[i],
    ) by {
        assert(true_dest_opds@[i] == view.operands[view.segment_start(1) + i]);
    }
    assert forall|i: int| 0 <= i < false_dest_opds@.len() implies ir.has_value(
        #[trigger] false_dest_opds@[i],
    ) by {
        assert(false_dest_opds@[i] == view.operands[view.segment_start(2) + i]);
    }
    match check_forwarding(ctx, &true_dest_opds, successors[0]) {
        Ok(()) => {},
        Err(err) => {
            return Err(err);
        },
    }
    check_forwarding(ctx, &false_dest_opds, successors[1])
}

/// In an operation whose blocks all end with a terminator, no exit block is empty.
proof fn terminated_exits(ir: Ir, op: OpId)
    requires
        VerifyErr::terminated(ir, op),
    ensures
        forall|i: int| ir.has_body(op, i) ==> #[trigger] ir.has_exit_op(op, i),
{
    assert forall|i: int| ir.has_body(op, i) implies #[trigger] ir.has_exit_op(op, i) by {
        let blocks = ir.regions[ir.ops[op].regions[i]].blocks;
        let b = ir.regions[ir.ops[op].regions[i]].blocks[blocks.len() - 1];
        assert(ir.terminator(b) is Some);
        assert(b == ir.exit(op, i));
    }
}

fn common_for(ctx: &Context, op: OpId) -> (result: Result<(), VerifyErr>)
    requires
        ctx.wf(),
        ctx@.ops.contains_key(op),
        ctx@.ops[op].kind is CfFor,
    ensures
        result == (match VerifyErr::common_finding(ctx@, op) {
            None => Ok(()),
            Some(err) => Err(err),
        }),
{
    let ghost ir = ctx@;
    if !terminated(ctx, op) {
        return Err(VerifyErr::MissingTerminator);
    }
    if ctx.regions(op).len() != 1 {
        return Err(VerifyErr::NumRegions);
    }
    if !segments_add_up(ctx, op) {
        return Err(VerifyErr::SegmentTotal);
    }
    if ctx.num_segments(op) != 2 {
        return Err(VerifyErr::SegmentCount);
    }
    proof {
        terminated_exits(ir, op);
    }
    let this = ForOp { op };
    match YieldingRegions::<YieldOp>::verify(&this, ctx) {
        Ok(()) => {},
        Err(err) => {
            return Err(VerifyErr::YieldingRegions(err));
        },
    }
    if !single_blocks(ctx, op) {
        return Err(VerifyErr::SingleBlockRegion);
    }
    Ok(())
}

fn common_nd_for(ctx: &Context, op: OpId) -> (result: Result<(), VerifyErr>)
    requires
        ctx.wf(),
        ctx@.ops.contains_key(op),
        ctx@.ops[op].kind is CfNDFor,
    ensures
        result == (match VerifyErr::common_finding(ctx@, op) {
            None => Ok(()),
            Some(err) => Err(err),
        }),
{
    let ghost ir = ctx@;
    if !terminated(ctx, op) {
        return Err(VerifyErr::MissingTerminator);
    }
    if ctx.regions(op).len() != 1 {
        return Err(VerifyErr::NumRegions);
    }
    if ctx.num_results(op) != 0 {
        return Err(VerifyErr::NumResults);
    }
    if !segments_add_up(ctx, op) {
        return Err(VerifyErr::SegmentTotal);
    }
    proof {
        terminated_exits(ir, op);
    }
    let this = NDForOp { op };
    match YieldingRegions::<YieldOp>::verify(&this, ctx) {
        Ok(()) => {},
        Err(err) => {
            return Err(VerifyErr::YieldingRegions(err));
        },
    }
    if !single_blocks(ctx, op) {
        return Err(VerifyErr::SingleBlockRegion);
    }
    Ok(())
}

fn common_execute_region(ctx: &Context, op: OpId) -> (result: Result<(), VerifyErr>)
    requires
        ctx.wf(),
        ctx@.ops.contains_key(op),
        ctx@.ops[op].kind is CfExecuteRegion,
    ensures
        result == (match VerifyErr::common_finding(ctx@, op) {
            None => Ok(()),
            Some(err) => Err(err),
        }),
{
    let ghost ir = ctx@;
    if !terminated(ctx, op) {
        return Err(VerifyErr::MissingTerminator);
    }
    if ctx.regions(op).len() != 1 {
        return Err(VerifyErr::NumRegions);
    }
    proof {
        terminated_exits(ir, op);
    }
    let this = ExecuteRegionOp { op };
    match YieldingRegions::<YieldOp>::verify(&this, ctx) {
        Ok(()) => {},
        Err(err) => {
            return Err(VerifyErr::YieldingRegions(err));
        },
    }
    Ok(())
}

fn common_if(ctx: &Context, op: OpId) -> (result: Result<(), VerifyErr>)
    requires
        ctx.wf(),
        ctx@.ops.contains_key(op),
        ctx@.ops[op].kind is CfIf,
    ensures
        result == (match VerifyErr::common_finding(ctx@, op) {
            None => Ok(()),
            Some(err) => Err(err),
        }),
{
    let ghost ir = ctx@;
    if !terminated(ctx, op) {
        return Err(VerifyErr::MissingTerminator);
    }
    let num_regions: usize = ctx.regions(op).len();
    if num_regions < 1 || num_regions > 2 {
        return Err(VerifyErr::NumRegions);
    }
    proof {
        terminated_exits(ir, op);
    }
    let this = IfOp { op };
    match YieldingRegions::<YieldOp>::verify(&this, ctx) {
        Ok(()) => {},
        Err(err) => {
            return Err(VerifyErr::YieldingRegions(err));
        },
    }
    if !single_blocks(ctx, op) {
        return Err(VerifyErr::SingleBlockRegion);
    }
    Ok(())
}

/// Checks what operations of several kinds are checked for in the same way.
fn common_check(ctx: &Context, op: OpId) -> (result: Result<(), VerifyErr>)
    requires
        ctx.wf(),
        ctx@.ops.contains_key(op),
    ensures
        result == (match VerifyErr::common_finding(ctx@, op) {
            None => Ok(()),
            Some(err) => Err(err),
        }),
{
    match ctx.kind(op) {
        OpKind::CfYield => common_yield(ctx, op),
        OpKind::CfBr => common_br(ctx, op),
        OpKind::CfCondBr => common_cond_br(ctx, op),
        OpKind::CfFor => common_for(ctx, op),
        OpKind::CfNDFor => common_nd_for(ctx, op),
        OpKind::CfExecuteRegion => common_execute_region(ctx, op),
        OpKind::CfIf => common_if(ctx, op),
        _ => Ok(()),
    }
}

/// In an operation with which nothing is wrong as far as others are checked in the same way,
/// the regions and the segments are there that its own check looks at.
proof fn common_check_passed(ir: Ir, op: OpId)
    requires
        ir.wf(),
        ir.ops.contains_key(op),
        VerifyErr::common_finding(ir, op) is None,
    ensures
        ir.ops[op].kind is CfFor ==> ir.has_body(op, 0) && ir.ops[op].has_segment(1),
        ir.ops[op].kind is CfNDFor ==> ir.has_body(op, 0),
        ir.ops[op].kind is CfNDFor && ir.ops[op].segments.len() == 3 ==> ir.ops[op].has_segment(2),
        ir.ops[op].kind is CfExecuteRegion ==> ir.has_body(op, 0),
        ir.ops[op].kind is CfIf ==> forall|i: int|
            0 <= i < ir.ops[op].regions.len() ==> #[trigger] ir.has_body(op, i),
{
    let regions = ir.ops[op].regions;
    match ir.ops[op].kind {
        OpKind::CfFor => {
            ir.ops[op].all_segments_there();
            assert(ir.regions[ir.ops[op].regions[0]].blocks.len() == 1);
        },
        OpKind::CfNDFor => {
            ir.ops[op].all_segments_there();
            assert(ir.regions[ir.ops[op].regions[0]].blocks.len() == 1);
        },
        OpKind::CfExecuteRegion => {
            assert(YieldingRegionsVerifyErr::fault::<YieldOp>(ir, ir.ops[op].regions[0]) is None);
        },
        OpKind::CfIf => {
            assert forall|i: int| 0 <= i < regions.len() implies #[trigger] ir.has_body(op, i) by {
                assert(ir.regions[ir.ops[op].regions[i]].blocks.len() == 1);
            }
        },
        _ => {},
    }
}

/// Has an operation what its check looks at?
pub fn can_verify_op(ctx: &Context, op: OpId) -> (b: bool)
    requires
        ctx.wf(),
        ctx@.ops.contains_key(op),
    ensures
        b == VerifyErr::checkable(ctx@, op),
{
    if common_check(ctx, op).is_err() {
        return true;
    }
    proof {
        common_check_passed(ctx@, op);
    }
    match ctx.kind(op) {
        OpKind::CfCondBr | OpKind::CfIf => ctx.operands(op).len() > 0,
        OpKind::CfFor => {
            let this = ForOp { op };
            proof {
                ctx@.entry_exit_in_range(op, 0);
            }
            this.verify_iter_args(ctx).is_err() || (ctx.segment_size(op, 0) >= 3
                && ctx.num_arguments(YieldingRegions::<YieldOp>::get_entry(&this, ctx, 0)) > 0)
        },
        _ => true,
    }
}

/// Checks one operation. What is in its regions is checked before, operation by operation.
pub fn verify_op(ctx: &Context, op: OpId) -> (result: Result<(), VerifyErr>)
    requires
        ctx.wf(),
        ctx@.ops.contains_key(op),
        VerifyErr::checkable(ctx@, op),
    ensures
        result == (match VerifyErr::finding(ctx@, op) {
            None => Ok(()),
            Some(err) => Err(err),
        }),
{
    match common_check(ctx, op) {
        Ok(()) => {},
        Err(err) => {
            return Err(err);
        },
    }
    proof {
        common_check_passed(ctx@, op);
    }
    match ctx.kind(op) {
        OpKind::CfYield => match (YieldOp { op }).verify(ctx) {
            Ok(()) => Ok(()),
            Err(err) => Err(VerifyErr::Yield(err)),
        },
        OpKind::CfCondBr => match (CondBrOp { op }).verify(ctx) {
            Ok(()) => Ok(()),
            Err(err) => Err(VerifyErr::CondBr(err)),
        },
        OpKind::CfFor => match (ForOp { op }).verify(ctx) {
            Ok(()) => Ok(()),
            Err(err) => Err(VerifyErr::For(err)),
        },
        OpKind::CfNDFor => match (NDForOp { op }).verify(ctx) {
            Ok(()) => Ok(()),
            Err(err) => Err(VerifyErr::NDFor(err)),
        },
        OpKind::CfExecuteRegion => match (ExecuteRegionOp { op }).verify(ctx) {
            Ok(()) => Ok(()),
            Err(err) => Err(VerifyErr::ExecuteRegion(err)),
        },
        OpKind::CfIf => match (IfOp { op }).verify(ctx) {
            Ok(()) => Ok(()),
            Err(err) => Err(VerifyErr::If(err)),
        },
        _ => Ok(()),
    }
}

} // verus!
