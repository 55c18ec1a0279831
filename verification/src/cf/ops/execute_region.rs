//! A region that runs once.

use crate::cf::op_interfaces::YieldingRegions;
use crate::cf::ops::yield_op::YieldOp;
use crate::ir::context::Context;
use crate::ir::model::{BlockView, Def, Ir, OpView, RegionView};
use crate::ir::rewriter::IRRewriter;
use crate::ir::types::{
    BlockId, BlockInsertionPoint, Location, OpId, OpInsertionPoint, OpKind, RegionId, Type, Value,
};
use vstd::prelude::*;

verus! {

/// Executes a region containing arbitrary (possibly multi-block) control flow, once, inline.
///
/// This enables embedding multi-block control flow inside operations whose regions have a
/// single block (like [ForOp](crate::cf::ops::ForOp)).
///
/// ## Result(s)
/// | result | description |
/// |-----|-------|
/// | `results` | (variadic) values produced by the region, as `yield`ed by its exit block |
///
/// ## Region(s)
///   - A single region, taking no arguments, which may contain multiple blocks.
///   The exit (lexicographically last) block must `yield` the results of this op.
#[derive(Debug, Clone, Copy, PartialEq, Eq, Structural, Hash)]
pub struct ExecuteRegionOp {
    pub op: OpId,
}

impl YieldingRegions<YieldOp> for ExecuteRegionOp {
    open spec fn yielding_op(&self) -> OpId {
        self.op
    }

    fn get_operation(&self) -> (op: OpId) {
        self.op
    }
}

/// What the parts of the operation are.
impl ExecuteRegionOp {
    pub open spec fn body(self, ir: Ir) -> RegionId {
        ir.ops[self.op].regions[0]
    }

    pub open spec fn entry(self, ir: Ir) -> BlockId {
        ir.entry(self.op, 0)
    }

    pub open spec fn exit(self, ir: Ir) -> BlockId {
        ir.exit(self.op, 0)
    }

    pub open spec fn yield_op(self, ir: Ir) -> OpId {
        ir.exit_op(self.op, 0)
    }
}

/// Construction.
impl ExecuteRegionOp {
    /// The representation with a new operation, in no block, whose region is one empty block.
    pub open spec fn begun(ir: Ir, result_types: Seq<Type>) -> Ir {
        let op = ir.op_at(0);
        let region = ir.region_at(0);
        let entry = ir.block_at(0);
        Ir {
            ops: ir.ops.insert(
                op,
                OpView {
                    kind: OpKind::CfExecuteRegion,
                    results: Def::all_unnamed(result_types),
                    operands: Seq::empty(),
                    successors: Seq::empty(),
                    regions: seq![region],
                    segments: Seq::empty(),
                    parent: None,
                    loc: Location::Unknown,
                },
            ),
            blocks: ir.blocks.insert(
                entry,
                BlockView {
                    label: Some("entry"@),
                    args: Seq::empty(),
                    ops: Seq::empty(),
                    parent: region,
                    loc: Location::Unknown,
                },
            ),
            regions: ir.regions.insert(region, RegionView { blocks: seq![entry], parent: op }),
            next_op: ir.next_op + 1,
            next_block: ir.next_block + 1,
            next_region: ir.next_region + 1,
        }
    }

    /// Makes an operation, in no block, whose region is one empty block.
    pub fn begin(ctx: &mut Context, result_types: Vec<Type>) -> (this: Self)
        requires
            old(ctx).wf(),
        ensures
            final(ctx).wf(),
            final(ctx).extends(old(ctx).journal()),
            this.op == old(ctx)@.op_at(0),
            final(ctx)@ == ExecuteRegionOp::begun(old(ctx)@, result_types@),
            final(ctx)@.next_block <= usize::MAX,
            final(ctx)@.next_region <= usize::MAX,
    {
        let ghost ir = ctx@;
        let ghost types = result_types@;
        let op: OpId = ctx.create_op(
            OpKind::CfExecuteRegion,
            result_types,
            Vec::new(),
            Vec::new(),
            1,
            Vec::new(),
        );
        let ghost s1 = ctx@;
        proof {
            assert(s1.next_region <= usize::MAX && s1.next_op <= usize::MAX) by {
                reveal(Ir::wf);
            }
            assert(s1.ops[op].regions[0] == ir.region_at(0));
        }
        let region: RegionId = ctx.regions(op)[0];
        let label = String::from_str("entry");
        let entry: BlockId = ctx.create_block(
            BlockInsertionPoint::AtRegionStart(region),
            Some(label),
            Vec::new(),
        );
        proof {
            assert(ctx@.next_block <= usize::MAX) by {
                reveal(Ir::wf);
            }
            assert(forall|r: RegionId| ir.regions.contains_key(r) ==> r < ir.next_region) by {
                reveal(Ir::wf);
            }
            let goal = ExecuteRegionOp::begun(ir, types);
            assert(ctx@.ops[op] =~= goal.ops[op]);
            assert(ctx@.ops =~= goal.ops);
            assert(ctx@.blocks[entry] =~= goal.blocks[entry]);
            assert(ctx@.blocks =~= goal.blocks);
            assert(ctx@.regions[region].blocks =~= seq![entry]);
            assert(ctx@.regions =~= goal.regions);
        }
        ExecuteRegionOp { op }
    }

    /// Is this what a body builder is given: the new operation, and an insertion point at the
    /// start of its region?
    pub open spec fn handed_over(
        ir: Ir,
        result_types: Seq<Type>,
        inner: Ir,
        point: OpInsertionPoint,
    ) -> bool {
        &&& inner == ExecuteRegionOp::begun(ir, result_types)
        &&& point == OpInsertionPoint::AtBlockStart(ir.block_at(0))
    }

    /// Creates a new `ExecuteRegionOp` with the specified result types.
    ///
    /// The `body_builder` function is called to populate the body of the region.
    ///   - It is provided with an inserter, set to the start of the entry block.
    ///   - It must return the values that this op should produce as results.
    ///
    /// A [YieldOp] is automatically added at the end of the body, taking these results
    /// as operands.
    ///
    /// The builder must accept the new operation, and leave a context in order, with the region
    /// of the operation in place and not empty, and the values that it returns there.
    pub fn new<State, F>(
        ctx: &mut Context,
        result_types: Vec<Type>,
        body_builder: F,
        body_builder_state: State,
    ) -> (this: Self) where F: FnOnce(&mut Context, State, &mut IRRewriter) -> Vec<Value>
        requires
            old(ctx).wf(),
            forall|inner: &mut Context, inserter: &mut IRRewriter|
                (*inner).wf() && ExecuteRegionOp::handed_over(
                    old(ctx)@,
                    result_types@,
                    (*inner)@,
                    (*inserter).insertion_point(),
                ) ==> #[trigger] call_requires(
                    body_builder,
                    (inner, body_builder_state, inserter),
                ),
            forall|inner: &mut Context, inserter: &mut IRRewriter, yields: Vec<Value>|
                (*inner).wf() && ExecuteRegionOp::handed_over(
                    old(ctx)@,
                    result_types@,
                    (*inner)@,
                    (*inserter).insertion_point(),
                ) && #[trigger] call_ensures(
                    body_builder,
                    (inner, body_builder_state, inserter),
                    yields,
                ) ==> {
                    &&& (*final(inner)).wf()
                    &&& (*final(inner)).extends((*inner).journal())
                    &&& (*final(inner))@.regions.contains_key(old(ctx)@.region_at(0))
                    &&& (*final(inner))@.regions[old(ctx)@.region_at(0)].blocks.len() > 0
                    &&& (*final(inner))@.has_values(yields@)
                },
        ensures
            final(ctx).wf(),
            final(ctx).extends(old(ctx).journal()),
            this.op == old(ctx)@.op_at(0),
            exists|inner: &mut Context, inserter: &mut IRRewriter, yields: Vec<Value>|
                {
                    &&& (*inner).wf()
                    &&& ExecuteRegionOp::handed_over(
                        old(ctx)@,
                        result_types@,
                        (*inner)@,
                        (*inserter).insertion_point(),
                    )
                    &&& #[trigger] call_ensures(
                        body_builder,
                        (inner, body_builder_state, inserter),
                        yields,
                    )
                    &&& final(ctx)@ == YieldOp::yielded(
                        (*final(inner))@,
                        old(ctx)@.region_at(0),
                        yields@,
                    )
                    &&& YieldOp::closes(
                        (*final(inner))@,
                        final(ctx)@,
                        old(ctx)@.region_at(0),
                        yields@,
                    )
                },
    {
        // Set up the region and its entry block.
        let this = ExecuteRegionOp::begin(ctx, result_types);
        let region: RegionId = ctx.regions(this.op)[0];
        let entry_block: BlockId = ctx.blocks(region)[0];

        // Populate the body.
        let mut op_inserter = IRRewriter::new(OpInsertionPoint::AtBlockStart(entry_block));
        let yield_values = body_builder(ctx, body_builder_state, &mut op_inserter);
        YieldOp::append_to(ctx, &mut op_inserter, region, yield_values);
        this
    }
}

/// Why an [ExecuteRegionOp] is not in order.
#[derive(Debug, Clone, Copy, PartialEq, Eq, Structural)]
pub enum ExecuteRegionOpVerifyErr {
    RegionHasArguments,
}

impl ExecuteRegionOpVerifyErr {
    /// What is wrong, in words.
    pub open spec fn text(self) -> Seq<char> {
        "ExecuteRegionOp's region must not take any arguments"@
    }

    /// Says what is wrong.
    pub fn message(&self) -> (message: &'static str)
        ensures
            message@ == self.text(),
    {
        "ExecuteRegionOp's region must not take any arguments"
    }
}

impl ExecuteRegionOp {
    /// What the check finds.
    pub open spec fn verified(self, ir: Ir) -> Result<(), ExecuteRegionOpVerifyErr> {
        if ir.blocks[self.entry(ir)].args.len() == 0 {
            Ok(())
        } else {
            Err(ExecuteRegionOpVerifyErr::RegionHasArguments)
        }
    }

    /// Checks that the region takes no arguments.
    pub fn verify(&self, ctx: &Context) -> (result: Result<(), ExecuteRegionOpVerifyErr>)
        requires
            ctx.wf(),
            ctx@.has_body(self.op, 0),
        ensures
            result == self.verified(ctx@),
    {
        proof {
            ctx@.entry_exit_in_range(self.op, 0);
        }
        if ctx.num_arguments(self.get_entry(ctx, 0)) != 0 {
            return Err(ExecuteRegionOpVerifyErr::RegionHasArguments);
        }
        Ok(())
    }
}

} // verus!
